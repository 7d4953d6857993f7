use vstd::prelude::*;
use crate::cell::{CellReference, Expr, FunctionName};
use crate::cellname::{
    all_digits, column_label, column_number, digits_value, label_bytes, lemma_column_label, string_from_chars,
};
use crate::parser::well_formed;
use vstd::string::StringSliceAdditionalSpecFns;

verus! {

/// Decimal digits of `n >= 0`.
pub open spec fn digits_text(n: int) -> Seq<u8>
    decreases n,
{
    if n < 10 {
        seq![((n % 10) + 48) as u8]
    } else {
        digits_text(n / 10).push(((n % 10) + 48) as u8)
    }
}

/// `n` in decimal, with a leading `-` when negative.
pub open spec fn decimal_text(n: int) -> Seq<u8> {
    if n < 0 {
        seq![45u8] + digits_text(-n)
    } else {
        digits_text(n)
    }
}

/// The name of a cell, such as `B12`.
pub open spec fn cell_text(r: CellReference) -> Seq<u8> {
    column_label(r.column + 1) + digits_text(r.row + 1)
}

pub open spec fn function_text(f: FunctionName) -> Seq<u8> {
    match f {
        FunctionName::Sum => seq![83u8, 85, 77],
        FunctionName::Max => seq![77u8, 65, 88],
        FunctionName::Min => seq![77u8, 73, 78],
        FunctionName::Avg => seq![65u8, 86, 71],
        FunctionName::Stdev => seq![83u8, 84, 68, 69, 86],
        FunctionName::Sleep => seq![83u8, 76, 69, 69, 80],
    }
}

pub proof fn lemma_function_text(f: FunctionName)
    ensures
        function_text(f).len() == 3 || function_text(f).len() == 5,
        forall|j: int| 0 <= j < function_text(f).len() ==> 65 <= #[trigger] function_text(f)[j] <= 90,
{
    let t = function_text(f);
    assert forall|j: int| 0 <= j < t.len() implies 65 <= #[trigger] t[j] <= 90 by {
        if j == 0 {
        } else if j == 1 {
        } else if j == 2 {
        } else if j == 3 {
        } else {
        }
    }
}

pub proof fn lemma_digits_text(n: int)
    requires
        n >= 0,
    ensures
        digits_text(n).len() >= 1,
        all_digits(digits_text(n)),
        digits_value(digits_text(n)) == n,
    decreases n,
{
    if n >= 10 {
        lemma_digits_text(n / 10);
        let t = digits_text(n);
        assert(t.drop_last() == digits_text(n / 10));
        assert forall|i: int| 0 <= i < t.len() implies 48 <= #[trigger] t[i] <= 57 by {
            if i < t.len() - 1 {
                assert(t[i] == digits_text(n / 10)[i]);
            }
        }
        assert(n / 10 * 10 + n % 10 == n);
        assert(0 <= n % 10 < 10);
        assert(t.last() == ((n % 10) + 48) as u8);
        assert(t.last() - 48 == n % 10);
        assert(digits_value(t) == digits_value(t.drop_last()) * 10 + (t.last() - 48));
    } else {
        let t = digits_text(n);
        assert(t.drop_last() =~= Seq::<u8>::empty());
        assert(t.last() == ((n % 10) + 48) as u8);
        assert(digits_value(t) == digits_value(t.drop_last()) * 10 + (t.last() - 48));
    }
}

/// What the first byte of a formula's text is.
pub proof fn lemma_text_start(e: Expr)
    requires
        printable(e),
    ensures
        formula_text(e).len() >= 1,
        e matches Expr::Number(n) ==> (n >= 0 ==> 48 <= formula_text(e)[0] <= 57) && (n < 0 ==> formula_text(e)[0] == 45),
        e is Cell || e is Function || e is Range ==> 65 <= formula_text(e)[0] <= 90,
        e is BinaryOp ==> formula_text(e)[0] == 40,
{
    match e {
        Expr::Number(n) => {
            if n < 0 {
                lemma_digits_text(-n);
            } else {
                lemma_digits_text(n as int);
            }
        },
        Expr::Cell(c) => {
            lemma_column_label(c.column + 1);
        },
        Expr::Function(f, _) => {
            lemma_function_text(f);
        },
        Expr::Range(a, _) => {
            lemma_column_label(a.column + 1);
        },
        Expr::BinaryOp(_, _, _) => {},
    }
}

/// The byte of an operator; `?` for a character that is none.
pub open spec fn op_byte(op: char) -> u8 {
    if op == '+' {
        43
    } else if op == '-' {
        45
    } else if op == '*' {
        42
    } else if op == '/' {
        47
    } else {
        63
    }
}

/// The text of a formula: binary operations in parentheses with spaced
/// operators, arguments separated by `, `.
pub open spec fn formula_text(e: Expr) -> Seq<u8>
    decreases e,
{
    match e {
        Expr::Number(n) => decimal_text(n as int),
        Expr::Cell(r) => cell_text(r),
        Expr::BinaryOp(l, op, r) => seq![40u8] + formula_text(*l) + seq![32u8, op_byte(op), 32u8] + formula_text(*r)
            + seq![41u8],
        Expr::Function(f, args) => function_text(f) + seq![40u8] + args_text(args@) + seq![41u8],
        Expr::Range(a, b) => cell_text(a) + seq![58u8] + cell_text(b),
    }
}

pub open spec fn args_text(args: Seq<Expr>) -> Seq<u8>
    decreases args,
{
    if args.len() == 0 {
        seq![]
    } else if args.len() == 1 {
        formula_text(args[0])
    } else {
        args_text(args.drop_last()) + seq![44u8, 32u8] + formula_text(args.last())
    }
}

/// Every cell the expression names has a row and a column in
/// `0..i32::MAX`, so that its name reads back.
pub open spec fn printable(e: Expr) -> bool
    decreases e,
{
    match e {
        Expr::Number(_) => true,
        Expr::Cell(r) => name_printable(r),
        Expr::BinaryOp(l, _, r) => printable(*l) && printable(*r),
        Expr::Function(_, args) => args_printable(args@),
        Expr::Range(a, b) => name_printable(a) && name_printable(b),
    }
}

pub open spec fn name_printable(r: CellReference) -> bool {
    0 <= r.row < i32::MAX && 0 <= r.column < i32::MAX
}

pub open spec fn args_printable(args: Seq<Expr>) -> bool
    decreases args,
{
    if args.len() == 0 {
        true
    } else {
        args_printable(args.drop_last()) && printable(args.last())
    }
}

pub proof fn lemma_args_printable(args: Seq<Expr>, i: int)
    requires
        args_printable(args),
        0 <= i < args.len(),
    ensures
        printable(args[i]),
    decreases args.len(),
{
    if i < args.len() - 1 {
        lemma_args_printable(args.drop_last(), i);
        assert(args.drop_last()[i] == args[i]);
    }
}

fn push_digits(n: u64, out: &mut Vec<u8>)
    ensures
        final(out)@ == old(out)@ + digits_text(n as int),
    decreases n,
{
    if n < 10 {
        out.push((n % 10) as u8 + 48u8);
        assert(out@ =~= old(out)@ + digits_text(n as int));
    } else {
        push_digits(n / 10, out);
        out.push((n % 10) as u8 + 48u8);
        assert(out@ =~= old(out)@ + digits_text(n as int));
    }
}

fn push_decimal(n: i32, out: &mut Vec<u8>)
    ensures
        final(out)@ == old(out)@ + decimal_text(n as int),
{
    if n < 0 {
        out.push(45u8);
        let m: i64 = -(n as i64);
        push_digits(m as u64, out);
        assert(out@ =~= old(out)@ + decimal_text(n as int));
    } else {
        push_digits(n as u64, out);
    }
}

fn push_cell(r: CellReference, out: &mut Vec<u8>)
    requires
        name_printable(r),
    ensures
        final(out)@ == old(out)@ + cell_text(r),
{
    let label = label_bytes((r.column as u32) + 1);
    let mut i: usize = 0;
    while i < label.len()
        invariant
            i <= label@.len(),
            out@ == old(out)@ + label@.subrange(0, i as int),
        decreases label@.len() - i,
    {
        out.push(label[i]);
        assert(out@ =~= old(out)@ + label@.subrange(0, i + 1));
        i = i + 1;
    }
    assert(label@.subrange(0, i as int) =~= label@);
    push_digits((r.row as u64) + 1, out);
    assert(out@ =~= old(out)@ + cell_text(r));
}

fn push_seq(bytes: &[u8], out: &mut Vec<u8>)
    ensures
        final(out)@ == old(out)@ + bytes@,
{
    let mut i: usize = 0;
    while i < bytes.len()
        invariant
            i <= bytes@.len(),
            out@ == old(out)@ + bytes@.subrange(0, i as int),
        decreases bytes@.len() - i,
    {
        out.push(bytes[i]);
        assert(out@ =~= old(out)@ + bytes@.subrange(0, i + 1));
        i = i + 1;
    }
    assert(bytes@.subrange(0, i as int) =~= bytes@);
}

fn push_function_name(f: FunctionName, out: &mut Vec<u8>)
    ensures
        final(out)@ == old(out)@ + function_text(f),
{
    let name: Vec<u8> = match f {
        FunctionName::Sum => vec![83u8, 85, 77],
        FunctionName::Max => vec![77u8, 65, 88],
        FunctionName::Min => vec![77u8, 73, 78],
        FunctionName::Avg => vec![65u8, 86, 71],
        FunctionName::Stdev => vec![83u8, 84, 68, 69, 86],
        FunctionName::Sleep => vec![83u8, 76, 69, 69, 80],
    };
    assert(name@ =~= function_text(f));
    push_seq(name.as_slice(), out);
}

fn op_to_byte(op: char) -> (b: u8)
    ensures
        b == op_byte(op),
{
    if op == '+' {
        43
    } else if op == '-' {
        45
    } else if op == '*' {
        42
    } else if op == '/' {
        47
    } else {
        63
    }
}

fn push_formula(e: &Expr, out: &mut Vec<u8>)
    requires
        printable(*e),
    ensures
        final(out)@ == old(out)@ + formula_text(*e),
    decreases e,
{
    match e {
        Expr::Number(n) => push_decimal(*n, out),
        Expr::Cell(r) => push_cell(*r, out),
        Expr::BinaryOp(l, op, r) => {
            out.push(40u8);
            push_formula(l, out);
            out.push(32u8);
            out.push(op_to_byte(*op));
            out.push(32u8);
            push_formula(r, out);
            out.push(41u8);
            assert(out@ =~= old(out)@ + formula_text(*e));
        },
        Expr::Function(f, args) => {
            push_function_name(*f, out);
            out.push(40u8);
            let ghost start = out@;
            let mut i: usize = 0;
            while i < args.len()
                invariant
                    *e == Expr::Function(e->Function_0, *args),
                    args_printable(args@),
                    i <= args@.len(),
                    out@ == start + args_text(args@.subrange(0, i as int)),
                decreases args@.len() - i,
            {
                proof {
                    assert(decreases_to!(*e => (*e)->Function_1));
                    assert(decreases_to!(*args => args[i as int]));
                    lemma_args_printable(args@, i as int);
                }
                if i > 0 {
                    out.push(44u8);
                    out.push(32u8);
                }
                push_formula(&args[i], out);
                proof {
                    let p = args@.subrange(0, i + 1);
                    assert(p.drop_last() =~= args@.subrange(0, i as int));
                    assert(p.last() == args@[i as int]);
                    if i == 0 {
                        assert(p.len() == 1);
                        assert(args_text(p) == formula_text(p[0]));
                    }
                    assert(out@ =~= start + args_text(p));
                }
                i = i + 1;
            }
            assert(args@.subrange(0, i as int) =~= args@);
            out.push(41u8);
            assert(out@ =~= old(out)@ + formula_text(*e));
        },
        Expr::Range(a, b) => {
            push_cell(*a, out);
            out.push(58u8);
            push_cell(*b, out);
            assert(out@ =~= old(out)@ + formula_text(*e));
        },
    }
}

pub open spec fn ascii_bytes(b: Seq<u8>) -> bool {
    forall|i: int| 0 <= i < b.len() ==> #[trigger] b[i] < 128
}

proof fn lemma_ascii_concat(a: Seq<u8>, b: Seq<u8>)
    requires
        ascii_bytes(a),
        ascii_bytes(b),
    ensures
        ascii_bytes(a + b),
{
    assert forall|i: int| 0 <= i < (a + b).len() implies #[trigger] (a + b)[i] < 128 by {
        if i < a.len() {
            assert((a + b)[i] == a[i]);
        } else {
            assert((a + b)[i] == b[i - a.len()]);
        }
    }
}

proof fn lemma_digits_ascii(n: int)
    requires
        n >= 0,
    ensures
        ascii_bytes(digits_text(n)),
{
    lemma_digits_text(n);
}

/// Formula text is plain ASCII.
pub proof fn lemma_text_ascii(e: Expr)
    requires
        printable(e),
    ensures
        ascii_bytes(formula_text(e)),
    decreases e,
{
    match e {
        Expr::Number(n) => {
            if n < 0 {
                lemma_digits_ascii(-n);
                lemma_ascii_concat(seq![45u8], digits_text(-n));
            } else {
                lemma_digits_ascii(n as int);
            }
        },
        Expr::Cell(c) => {
            lemma_cell_ascii(c);
        },
        Expr::BinaryOp(l, op, r) => {
            lemma_text_ascii(*l);
            lemma_text_ascii(*r);
            lemma_ascii_concat(seq![40u8], formula_text(*l));
            lemma_ascii_concat(seq![40u8] + formula_text(*l), seq![32u8, op_byte(op), 32u8]);
            lemma_ascii_concat(seq![40u8] + formula_text(*l) + seq![32u8, op_byte(op), 32u8], formula_text(*r));
            lemma_ascii_concat(seq![40u8] + formula_text(*l) + seq![32u8, op_byte(op), 32u8] + formula_text(*r), seq![41u8]);
        },
        Expr::Function(f, args) => {
            lemma_function_text(f);
            lemma_args_ascii(args@);
            lemma_ascii_concat(function_text(f), seq![40u8]);
            lemma_ascii_concat(function_text(f) + seq![40u8], args_text(args@));
            lemma_ascii_concat(function_text(f) + seq![40u8] + args_text(args@), seq![41u8]);
        },
        Expr::Range(a, b) => {
            lemma_cell_ascii(a);
            lemma_cell_ascii(b);
            lemma_ascii_concat(cell_text(a), seq![58u8]);
            lemma_ascii_concat(cell_text(a) + seq![58u8], cell_text(b));
        },
    }
}

proof fn lemma_cell_ascii(c: CellReference)
    requires
        name_printable(c),
    ensures
        ascii_bytes(cell_text(c)),
{
    lemma_column_label(c.column + 1);
    lemma_digits_ascii(c.row + 1);
    lemma_ascii_concat(column_label(c.column + 1), digits_text(c.row + 1));
}

proof fn lemma_args_ascii(a: Seq<Expr>)
    requires
        args_printable(a),
    ensures
        ascii_bytes(args_text(a)),
    decreases a,
{
    if a.len() == 1 {
        assert(a.drop_last() =~= Seq::<Expr>::empty());
        assert(a.last() == a[0]);
        lemma_text_ascii(a[0]);
    } else if a.len() > 1 {
        lemma_args_ascii(a.drop_last());
        lemma_text_ascii(a.last());
        lemma_ascii_concat(args_text(a.drop_last()), seq![44u8, 32u8]);
        lemma_ascii_concat(args_text(a.drop_last()) + seq![44u8, 32u8], formula_text(a.last()));
    }
}

/// The text of a formula (see `formula_text`), which `parse_formula`
/// reads back.
pub fn expr_to_string(e: &Expr) -> (r: String)
    requires
        printable(*e),
    ensures
        r@ == formula_text(*e).map_values(|b: u8| b as char),
        forall|t: &str| t@ == r@ ==> #[trigger] t.spec_bytes() == formula_text(*e),
{
    proof {
        lemma_text_ascii(*e);
    }
    let mut out: Vec<u8> = Vec::new();
    push_formula(e, &mut out);
    let mut chars: Vec<char> = Vec::new();
    let mut i: usize = 0;
    while i < out.len()
        invariant
            i <= out@.len(),
            chars@ == out@.subrange(0, i as int).map_values(|b: u8| b as char),
        decreases out@.len() - i,
    {
        chars.push(out[i] as char);
        assert(chars@ =~= out@.subrange(0, i + 1).map_values(|b: u8| b as char));
        i = i + 1;
    }
    assert(out@.subrange(0, i as int) =~= out@);
    let r = string_from_chars(chars);
    assert forall|t: &str| t@ == r@ implies #[trigger] t.spec_bytes() == formula_text(*e) by {
        assert(vstd::string::is_ascii(t)) by {
            assert forall|i: int| 0 <= i < t@.len() implies (t@[i] as u32) < 128 by {
                assert(t@[i] == formula_text(*e)[i] as char);
            }
        }
        vstd::string::is_ascii_spec_bytes(t);
        assert(t.spec_bytes() =~= formula_text(*e));
    }
    r
}

} // verus!
