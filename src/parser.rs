use vstd::prelude::*;
use crate::cell::{CellReference, Expr, FunctionName};
use crate::printer::{
    args_printable, args_text, cell_text, digits_text, formula_text, function_text, lemma_digits_text,
    lemma_text_start, name_printable, op_byte, printable,
};
use crate::cellname::{
    all_digits, cell_name_bytes, cell_name_value, column_number, digits_value, lemma_digits_value,
    lemma_letters_nonneg, lemma_letters_value,
};
use vstd::string::StringSliceAdditionalSpecFns;

verus! {

/// The shape every parsed formula has: operators are `+ - * /`, a range
/// stands only as an argument of an aggregate, and `SLEEP` takes one
/// literal or cell.
pub open spec fn well_formed(e: Expr) -> bool
    decreases e,
{
    match e {
        Expr::Number(_) => true,
        Expr::Cell(_) => true,
        Expr::BinaryOp(l, op, r) => (op == '+' || op == '-' || op == '*' || op == '/') && well_formed(*l)
            && well_formed(*r),
        Expr::Function(f, args) => if f == FunctionName::Sleep {
            args@.len() == 1 && (args@[0] is Number || args@[0] is Cell)
        } else {
            args_well_formed(args@)
        },
        Expr::Range(_, _) => false,
    }
}

/// Each argument is a range or a well-formed expression.
pub open spec fn args_well_formed(args: Seq<Expr>) -> bool
    decreases args,
{
    if args.len() == 0 {
        true
    } else {
        args_well_formed(args.drop_last()) && (args.last() is Range || well_formed(args.last()))
    }
}

/// Byte classes the lexer scans runs of: blanks, digits, upper-case
/// letters, letters.
pub open spec fn in_class(b: u8, class: int) -> bool {
    if class == 0 {
        b == 32 || b == 9
    } else if class == 1 {
        48 <= b <= 57
    } else if class == 2 {
        65 <= b <= 90
    } else {
        65 <= b <= 90 || 97 <= b <= 122
    }
}

/// The end of the run of bytes of `class` that starts at `p`.
pub open spec fn run_end(s: Seq<u8>, p: int, class: int) -> int
    decreases s.len() - p,
{
    if 0 <= p < s.len() && in_class(s[p], class) {
        run_end(s, p + 1, class)
    } else {
        p
    }
}

pub proof fn lemma_run_end(s: Seq<u8>, p: int, q: int, class: int)
    requires
        0 <= p <= q <= s.len(),
        forall|j: int| p <= j < q ==> in_class(#[trigger] s[j], class),
        q == s.len() || !in_class(s[q], class),
    ensures
        run_end(s, p, class) == q,
    decreases q - p,
{
    if p < q {
        lemma_run_end(s, p + 1, q, class);
    }
}

pub proof fn lemma_run_end_bounds(s: Seq<u8>, p: int, class: int)
    requires
        0 <= p <= s.len(),
    ensures
        p <= run_end(s, p, class) <= s.len(),
        forall|j: int| p <= j < run_end(s, p, class) ==> in_class(#[trigger] s[j], class),
        run_end(s, p, class) == s.len() || !in_class(s[run_end(s, p, class)], class),
    decreases s.len() - p,
{
    if p < s.len() && in_class(s[p], class) {
        lemma_run_end_bounds(s, p + 1, class);
    }
}

fn skip_spaces(s: &[u8], pos: usize) -> (r: usize)
    requires
        pos <= s@.len(),
    ensures
        pos <= r <= s@.len(),
        r == run_end(s@, pos as int, 0),
{
    let mut p = pos;
    while p < s.len() && (s[p] == 32u8 || s[p] == 9u8)
        invariant
            pos <= p <= s@.len(),
            run_end(s@, p as int, 0) == run_end(s@, pos as int, 0),
        decreases s@.len() - p,
    {
        p = p + 1;
    }
    p
}

/// The run of decimal digits at `pos`, when it is not empty and its value
/// is at most `limit`.
fn parse_digits(s: &[u8], pos: usize, limit: u64) -> (r: Option<(u64, usize)>)
    requires
        pos <= s@.len(),
        limit <= 0xFFFF_FFFF,
    ensures
        r matches Some((v, p)) ==> pos < p <= s@.len() && v <= limit,
        ({
            let de = run_end(s@, pos as int, 1);
            &&& r is None <==> (de == pos || digits_value(s@.subrange(pos as int, de)) > limit)
            &&& r matches Some((v, p)) ==> p == de && v == digits_value(s@.subrange(pos as int, de))
        }),
{
    proof {
        lemma_run_end_bounds(s@, pos as int, 1);
    }
    let ghost de = run_end(s@, pos as int, 1);
    let ghost d = s@.subrange(pos as int, de);
    assert(all_digits(d)) by {
        assert forall|j: int| 0 <= j < d.len() implies 48 <= #[trigger] d[j] <= 57 by {
            assert(d[j] == s@[pos + j]);
            assert(in_class(s@[pos + j], 1));
        }
    }
    let mut p = pos;
    let mut v: u64 = 0;
    while p < s.len() && 48u8 <= s[p] && s[p] <= 57u8
        invariant
            pos <= p <= de <= s@.len(),
            de == run_end(s@, pos as int, 1),
            run_end(s@, p as int, 1) == de,
            d == s@.subrange(pos as int, de),
            all_digits(d),
            v <= limit <= 0xFFFF_FFFF,
            v == digits_value(d.subrange(0, p - pos)),
        decreases s@.len() - p,
    {
        proof {
            lemma_run_end_bounds(s@, p + 1, 1);
        }
        assert(in_class(s@[p as int], 1));
        assert(run_end(s@, p as int, 1) == run_end(s@, p + 1, 1));
        assert(p < de);
        assert(d.subrange(0, p - pos + 1).drop_last() =~= d.subrange(0, p - pos));
        assert(d[p - pos] == s@[p as int]);
        let nv = v * 10 + (s[p] - 48u8) as u64;
        if nv > limit {
            proof {
                lemma_digits_value(d, p - pos + 1);
            }
            return None;
        }
        v = nv;
        p = p + 1;
    }
    assert(p == de);
    assert(d.subrange(0, p - pos) =~= d);
    if p == pos {
        None
    } else {
        Some((v, p))
    }
}

/// The cell named at `pos`: a non-empty run of upper-case letters and a
/// non-empty run of digits, both within `i32`, the row at least 1.
pub open spec fn cell_at(s: Seq<u8>, pos: int) -> Option<(CellReference, int)> {
    let ke = run_end(s, pos, 2);
    let de = run_end(s, ke, 1);
    let col = column_number(s.subrange(pos, ke));
    let row = digits_value(s.subrange(ke, de));
    if ke > pos && de > ke && col <= 0x7FFF_FFFF && 1 <= row <= 0x7FFF_FFFF {
        Some((CellReference { row: (row - 1) as i32, column: (col - 1) as i32 }, de))
    } else {
        None
    }
}

/// An upper-case column label followed by a one-based row number, at `pos`.
fn parse_cell_ref(s: &[u8], pos: usize) -> (r: Option<(CellReference, usize)>)
    requires
        pos <= s@.len(),
    ensures
        r matches Some((c, p)) ==> pos < p <= s@.len() && c.row >= 0 && c.column >= 0 && name_printable(c),
        r is None <==> cell_at(s@, pos as int) is None,
        r matches Some((c, p)) ==> cell_at(s@, pos as int) == Some((c, p as int)),
{
    proof {
        lemma_run_end_bounds(s@, pos as int, 2);
    }
    let ghost ke = run_end(s@, pos as int, 2);
    let ghost letters = s@.subrange(pos as int, ke);
    assert forall|j: int| 0 <= j < letters.len() implies 65 <= #[trigger] letters[j] <= 90 by {
        assert(letters[j] == s@[pos + j]);
        assert(in_class(s@[pos + j], 2));
    }
    let mut p = pos;
    let mut col: u64 = 0;
    while p < s.len() && 65u8 <= s[p] && s[p] <= 90u8
        invariant
            pos <= p <= ke <= s@.len(),
            ke == run_end(s@, pos as int, 2),
            run_end(s@, p as int, 2) == ke,
            letters == s@.subrange(pos as int, ke),
            forall|j: int| 0 <= j < letters.len() ==> 65 <= #[trigger] letters[j] <= 90,
            col <= 0x7FFF_FFFF,
            col == column_number(letters.subrange(0, p - pos)),
        decreases s@.len() - p,
    {
        proof {
            lemma_run_end_bounds(s@, p + 1, 2);
        }
        assert(in_class(s@[p as int], 2));
        assert(run_end(s@, p as int, 2) == run_end(s@, p + 1, 2));
        assert(p < ke);
        assert(letters.subrange(0, p - pos + 1).drop_last() =~= letters.subrange(0, p - pos));
        assert(letters[p - pos] == s@[p as int]);
        let nc = col * 26 + (s[p] - 64u8) as u64;
        if nc > 0x7FFF_FFFF {
            proof {
                lemma_letters_value(letters, p - pos + 1);
            }
            return None;
        }
        col = nc;
        p = p + 1;
    }
    assert(p == ke);
    assert(letters.subrange(0, p - pos) =~= letters);
    if p == pos {
        return None;
    }
    proof {
        lemma_letters_nonneg(letters);
    }
    match parse_digits(s, p, 0x7FFF_FFFF) {
        None => None,
        Some((row, q)) => {
            if row == 0 {
                None
            } else {
                Some((CellReference { row: (row - 1) as i32, column: (col - 1) as i32 }, q))
            }
        },
    }
}

/// The function a name denotes, in any case.
fn function_named(s: &[u8], from: usize, to: usize) -> (r: Option<FunctionName>)
    requires
        from <= to <= s@.len(),
    ensures
        forall|f: FunctionName| s@.subrange(from as int, to as int) == #[trigger] function_text(f) ==> r == Some(f),
        r matches Some(f) ==> upper_of(s@.subrange(from as int, to as int)) == function_text(f),
{
    let n = to - from;
    let mut name: Vec<u8> = Vec::new();
    let mut i = from;
    while i < to
        invariant
            from <= i <= to <= s@.len(),
            name@.len() == i - from,
            forall|j: int| 0 <= j < i - from ==> (#[trigger] name@[j] == s@[from + j] || !(65 <= s@[from + j] <= 90)),
            name@ == upper_of(s@.subrange(from as int, i as int)),
        decreases to - i,
    {
        let b = s[i];
        name.push(if 97u8 <= b && b <= 122u8 { b - 32u8 } else { b });
        assert(name@[i - from] == s@[i as int] || !(65 <= s@[i as int] <= 90));
        assert(name@ =~= upper_of(s@.subrange(from as int, i + 1)));
        i = i + 1;
    }
    assert(name@ == upper_of(s@.subrange(from as int, to as int)));
    proof {
        assert forall|f: FunctionName| s@.subrange(from as int, to as int) == #[trigger] function_text(f) implies name@
            =~= function_text(f) by {
            assert forall|j: int| 0 <= j < name@.len() implies name@[j] == function_text(f)[j] by {
                assert(s@.subrange(from as int, to as int)[j] == s@[from + j]);
                crate::printer::lemma_function_text(f);
                assert(65 <= function_text(f)[j] <= 90);
            }
        }
    }
    if n == 3 {
        let (a, b, c) = (name[0], name[1], name[2]);
        if a == 83u8 && b == 85u8 && c == 77u8 {
            assert(name@ =~= function_text(FunctionName::Sum));
            Some(FunctionName::Sum)
        } else if a == 77u8 && b == 65u8 && c == 88u8 {
            assert(name@ =~= function_text(FunctionName::Max));
            Some(FunctionName::Max)
        } else if a == 77u8 && b == 73u8 && c == 78u8 {
            assert(name@ =~= function_text(FunctionName::Min));
            Some(FunctionName::Min)
        } else if a == 65u8 && b == 86u8 && c == 71u8 {
            assert(name@ =~= function_text(FunctionName::Avg));
            Some(FunctionName::Avg)
        } else {
            None
        }
    } else if n == 5 {
        let (a, b, c, d, e) = (name[0], name[1], name[2], name[3], name[4]);
        if a == 83u8 && b == 84u8 && c == 68u8 && d == 69u8 && e == 86u8 {
            assert(name@ =~= function_text(FunctionName::Stdev));
            Some(FunctionName::Stdev)
        } else if a == 83u8 && b == 76u8 && c == 69u8 && d == 69u8 && e == 80u8 {
            assert(name@ =~= function_text(FunctionName::Sleep));
            Some(FunctionName::Sleep)
        } else {
            None
        }
    } else {
        None
    }
}


/// Letters with the lower-case ones raised.
pub open spec fn upper_of(b: Seq<u8>) -> Seq<u8> {
    b.map_values(|x: u8| if 97 <= x <= 122 { (x - 32) as u8 } else { x })
}

/// After the blanks from `pos` stand letters, then no digit, and the
/// letters name no function in any case.
pub open spec fn unknown_name_at(s: Seq<u8>, pos: int) -> bool {
    let p = run_end(s, pos, 0);
    let q = run_end(s, p, 3);
    &&& q > p
    &&& q >= s.len() || !in_class(s[q], 1)
    &&& forall|f: FunctionName| upper_of(s.subrange(p, q)) != #[trigger] function_text(f)
}

/// After the blanks from `pos` stand letters and then digits that name no
/// cell (`a1`, `A0`, or a part beyond `i32`).
pub open spec fn bad_ref_at(s: Seq<u8>, pos: int) -> bool {
    let p = run_end(s, pos, 0);
    let q = run_end(s, p, 3);
    &&& q > p
    &&& q < s.len() && in_class(s[q], 1)
    &&& cell_at(s, p) is None
}

/// After the blanks from `pos` stands a sign that no digit follows.
pub open spec fn sign_without_digits(s: Seq<u8>, pos: int) -> bool {
    let p = run_end(s, pos, 0);
    &&& p < s.len()
    &&& s[p] == 43 || s[p] == 45
    &&& p + 1 >= s.len() || !in_class(s[p + 1], 1)
}

/// How many bytes `ch` stand in `s[a..b]`.
pub open spec fn count_of(s: Seq<u8>, a: int, b: int, ch: u8) -> int
    decreases b - a,
{
    if b <= a {
        0
    } else {
        count_of(s, a, b - 1, ch) + if s[b - 1] == ch {
            1int
        } else {
            0int
        }
    }
}

/// `s[a..b]` holds as many `(` as `)`.
pub open spec fn balanced(s: Seq<u8>, a: int, b: int) -> bool {
    count_of(s, a, b, 40) == count_of(s, a, b, 41)
}

/// `s[a..b]` holds no parenthesis.
pub open spec fn no_paren(s: Seq<u8>, a: int, b: int) -> bool {
    forall|j: int| a <= j < b ==> #[trigger] s[j] != 40 && s[j] != 41
}

proof fn lemma_count_split(s: Seq<u8>, a: int, b: int, c: int, ch: u8)
    requires
        a <= b <= c,
    ensures
        count_of(s, a, c, ch) == count_of(s, a, b, ch) + count_of(s, b, c, ch),
    decreases c - b,
{
    if c > b {
        lemma_count_split(s, a, b, c - 1, ch);
    }
}

proof fn lemma_count_one(s: Seq<u8>, o: int, ch: u8)
    ensures
        count_of(s, o, o + 1, ch) == if s[o] == ch { 1int } else { 0int },
{
    assert(count_of(s, o, o, ch) == 0);
}

proof fn lemma_no_paren_counts(s: Seq<u8>, a: int, b: int)
    requires
        a <= b,
        no_paren(s, a, b),
    ensures
        count_of(s, a, b, 40) == 0,
        count_of(s, a, b, 41) == 0,
    decreases b - a,
{
    if b > a {
        lemma_no_paren_counts(s, a, b - 1);
        assert(s[b - 1] != 40 && s[b - 1] != 41);
    }
}

proof fn lemma_balanced_join(s: Seq<u8>, a: int, b: int, c: int)
    requires
        a <= b <= c,
        balanced(s, a, b),
        balanced(s, b, c),
    ensures
        balanced(s, a, c),
{
    lemma_count_split(s, a, b, c, 40);
    lemma_count_split(s, a, b, c, 41);
}

proof fn lemma_no_paren_balanced(s: Seq<u8>, a: int, b: int)
    requires
        a <= b,
        no_paren(s, a, b),
    ensures
        balanced(s, a, b),
{
    lemma_no_paren_counts(s, a, b);
}

/// A run of bytes of one class holds no parenthesis.
proof fn lemma_run_no_paren(s: Seq<u8>, p: int, class: int)
    requires
        0 <= p <= s.len(),
    ensures
        no_paren(s, p, run_end(s, p, class)),
        p <= run_end(s, p, class) <= s.len(),
{
    lemma_run_end_bounds(s, p, class);
}

proof fn lemma_no_paren_join(s: Seq<u8>, a: int, b: int, c: int)
    requires
        a <= b <= c,
        no_paren(s, a, b),
        no_paren(s, b, c),
    ensures
        no_paren(s, a, c),
{
}

/// A parenthesis opened at `o` and closed at `c` around a balanced stretch.
proof fn lemma_wrap(s: Seq<u8>, a: int, o: int, m: int, c: int)
    requires
        a <= o < m <= c < s.len(),
        no_paren(s, a, o),
        s[o] == 40,
        o + 1 == m || balanced(s, o + 1, m),
        no_paren(s, m, c),
        s[c] == 41,
        balanced(s, o + 1, m),
    ensures
        balanced(s, a, c + 1),
{
    lemma_no_paren_counts(s, a, o);
    lemma_no_paren_counts(s, m, c);
    lemma_count_split(s, a, o, c + 1, 40);
    lemma_count_split(s, a, o, c + 1, 41);
    lemma_count_split(s, o, o + 1, c + 1, 40);
    lemma_count_split(s, o, o + 1, c + 1, 41);
    lemma_count_split(s, o + 1, m, c + 1, 40);
    lemma_count_split(s, o + 1, m, c + 1, 41);
    lemma_count_split(s, m, c, c + 1, 40);
    lemma_count_split(s, m, c, c + 1, 41);
    lemma_count_one(s, o, 40);
    lemma_count_one(s, o, 41);
    lemma_count_one(s, c, 40);
    lemma_count_one(s, c, 41);
}

/// A parenthesis opened at `o` whose argument list, closing it, starts at `o + 1`.
proof fn lemma_call(s: Seq<u8>, a: int, o: int, e: int)
    requires
        a <= o < e,
        no_paren(s, a, o),
        s[o] == 40,
        count_of(s, o + 1, e, 41) == count_of(s, o + 1, e, 40) + 1,
    ensures
        balanced(s, a, e),
{
    lemma_no_paren_counts(s, a, o);
    lemma_count_split(s, a, o, e, 40);
    lemma_count_split(s, a, o, e, 41);
    lemma_count_split(s, o, o + 1, e, 40);
    lemma_count_split(s, o, o + 1, e, 41);
    lemma_count_one(s, o, 40);
    lemma_count_one(s, o, 41);
}

/// A balanced stretch, then bytes without parentheses, then `)`.
proof fn lemma_close(s: Seq<u8>, a: int, m: int, c: int)
    requires
        a <= m <= c < s.len(),
        balanced(s, a, m),
        no_paren(s, m, c),
        s[c] == 41,
    ensures
        count_of(s, a, c + 1, 41) == count_of(s, a, c + 1, 40) + 1,
{
    lemma_no_paren_counts(s, m, c);
    lemma_count_split(s, a, m, c + 1, 40);
    lemma_count_split(s, a, m, c + 1, 41);
    lemma_count_split(s, m, c, c + 1, 40);
    lemma_count_split(s, m, c, c + 1, 41);
    lemma_count_one(s, c, 40);
    lemma_count_one(s, c, 41);
}

/// `t` stands in `s` from `p`.
pub open spec fn text_at(s: Seq<u8>, p: int, t: Seq<u8>) -> bool {
    0 <= p && p + t.len() <= s.len() && s.subrange(p, p + t.len()) == t
}

/// The text of `e` stands in `s` after the blanks that follow `pos`.
pub open spec fn printed(s: Seq<u8>, pos: int, e: Expr) -> bool {
    text_at(s, run_end(s, pos, 0), formula_text(e))
}

/// Where the text of `e`, printed after the blanks from `pos`, ends.
pub open spec fn end_of(s: Seq<u8>, pos: int, e: Expr) -> int {
    run_end(s, pos, 0) + formula_text(e).len()
}

pub open spec fn no_digit_at(s: Seq<u8>, p: int) -> bool {
    p >= s.len() || !in_class(s[p], 1)
}

/// The first byte after the blanks from `p` is neither `a` nor `b`.
pub open spec fn next_not(s: Seq<u8>, p: int, a: u8, b: u8) -> bool {
    let q = run_end(s, p, 0);
    q >= s.len() || (s[q] != a && s[q] != b)
}

/// `e` is a formula whose text reads back.
pub open spec fn readable(e: Expr) -> bool {
    well_formed(e) && printable(e)
}

pub open spec fn factor_fits(s: Seq<u8>, pos: int, e: Expr) -> bool {
    readable(e) && printed(s, pos, e) && no_digit_at(s, end_of(s, pos, e))
}

pub open spec fn term_fits(s: Seq<u8>, pos: int, e: Expr) -> bool {
    factor_fits(s, pos, e) && next_not(s, end_of(s, pos, e), 42, 47)
}

pub open spec fn expr_fits(s: Seq<u8>, pos: int, e: Expr) -> bool {
    term_fits(s, pos, e) && next_not(s, end_of(s, pos, e), 43, 45)
}

/// `l op r` from `pos`, each operand as the printer writes it, blanks
/// allowed around the operator.
pub open spec fn pair_fits(s: Seq<u8>, pos: int, l: Expr, op: char, r: Expr) -> bool {
    &&& readable(l)
    &&& readable(r)
    &&& op == '+' || op == '-' || op == '*' || op == '/'
    &&& printed(s, pos, l)
    &&& op_pos(s, pos, l) < s.len()
    &&& s[op_pos(s, pos, l)] == op_byte(op)
    &&& printed(s, op_pos(s, pos, l) + 1, r)
    &&& no_digit_at(s, pair_end(s, pos, l, op, r))
}

/// Where the operator after `l` stands: past the blanks that follow it.
pub open spec fn op_pos(s: Seq<u8>, pos: int, l: Expr) -> int {
    run_end(s, end_of(s, pos, l), 0)
}

pub open spec fn pair_end(s: Seq<u8>, pos: int, l: Expr, op: char, r: Expr) -> int {
    end_of(s, op_pos(s, pos, l) + 1, r)
}

proof fn lemma_text_at_index(s: Seq<u8>, p: int, t: Seq<u8>, i: int)
    requires
        text_at(s, p, t),
        0 <= i < t.len(),
    ensures
        s[p + i] == t[i],
{
    assert(s.subrange(p, p + t.len())[i] == s[p + i]);
}

proof fn lemma_text_at_split(s: Seq<u8>, p: int, a: Seq<u8>, b: Seq<u8>)
    requires
        text_at(s, p, a + b),
    ensures
        text_at(s, p, a),
        text_at(s, p + a.len(), b),
{
    assert(s.subrange(p, p + a.len()) =~= (a + b).subrange(0, a.len() as int)) by {
        assert(s.subrange(p, p + a.len()) =~= s.subrange(p, p + (a + b).len()).subrange(0, a.len() as int));
    }
    assert((a + b).subrange(0, a.len() as int) =~= a);
    assert(s.subrange(p + a.len(), p + a.len() + b.len()) =~= s.subrange(p, p + (a + b).len()).subrange(
        a.len() as int,
        (a + b).len() as int,
    ));
    assert((a + b).subrange(a.len() as int, (a + b).len() as int) =~= b);
}

/// A printed non-negative number is read back by the digit scanner.
proof fn lemma_printed_digits(s: Seq<u8>, p: int, n: int)
    requires
        n >= 0,
        text_at(s, p, digits_text(n)),
        no_digit_at(s, p + digits_text(n).len()),
    ensures
        run_end(s, p, 1) == p + digits_text(n).len(),
        digits_value(s.subrange(p, run_end(s, p, 1))) == n,
{
    lemma_digits_text(n);
    let t = digits_text(n);
    assert forall|j: int| p <= j < p + t.len() implies in_class(#[trigger] s[j], 1) by {
        lemma_text_at_index(s, p, t, j - p);
    }
    lemma_run_end(s, p, p + t.len(), 1);
}

/// A printed cell name is read back by the cell scanner.
proof fn lemma_printed_cell(s: Seq<u8>, p: int, c: CellReference)
    requires
        name_printable(c),
        text_at(s, p, cell_text(c)),
        no_digit_at(s, p + cell_text(c).len()),
    ensures
        cell_at(s, p) == Some((c, p + cell_text(c).len())),
{
    let label = crate::cellname::column_label(c.column + 1);
    let d = digits_text(c.row + 1);
    crate::cellname::lemma_column_label(c.column + 1);
    lemma_digits_text(c.row + 1);
    lemma_text_at_split(s, p, label, d);
    let k = p + label.len();
    assert forall|j: int| p <= j < k implies in_class(#[trigger] s[j], 2) by {
        lemma_text_at_index(s, p, label, j - p);
    }
    lemma_text_at_index(s, k, d, 0);
    lemma_run_end(s, p, k, 2);
    lemma_printed_digits(s, k, c.row + 1);
    assert(s.subrange(p, k) == label);
}

/// The byte at `p` is `b`.
fn at(s: &[u8], p: usize, b: u8) -> (r: bool)
    ensures
        r == (p < s@.len() && s@[p as int] == b),
        r == at_spec(s@, p as int, b),
        s@.len() <= usize::MAX,
{
    p < s.len() && s[p] == b
}


pub open spec fn at_spec(s: Seq<u8>, p: int, b: u8) -> bool {
    0 <= p < s.len() && s[p] == b
}

proof fn lemma_args_well_formed_item(a: Seq<Expr>, i: int)
    requires
        args_well_formed(a),
        0 <= i < a.len(),
    ensures
        a[i] is Range || well_formed(a[i]),
    decreases a.len(),
{
    if i < a.len() - 1 {
        lemma_args_well_formed_item(a.drop_last(), i);
        assert(a.drop_last()[i] == a[i]);
    }
}

pub proof fn lemma_args_deep_eq_push(before: Seq<Expr>, e: Expr, a: Seq<Expr>, i: int)
    requires
        0 <= i < a.len(),
        before.len() == i,
        args_deep_eq(before, a.subrange(0, i)),
        deep_eq(e, a[i]),
    ensures
        args_deep_eq(before.push(e), a.subrange(0, i + 1)),
{
    assert(before.push(e).drop_last() =~= before);
    assert(a.subrange(0, i + 1).drop_last() =~= a.subrange(0, i));
    assert(a.subrange(0, i + 1).last() == a[i]);
}

/// No cell name starts where a number, a parenthesis or a function call is
/// printed.
proof fn lemma_no_cell_at(s: Seq<u8>, p: int, e: Expr)
    requires
        printable(e),
        text_at(s, p, formula_text(e)),
        e is Number || e is BinaryOp || e is Function,
    ensures
        cell_at(s, p) is None,
{
    lemma_text_start(e);
    lemma_text_at_index(s, p, formula_text(e), 0);
    if e is Function {
        let f = e->Function_0;
        let a = e->Function_1@;
        let name = function_text(f);
        crate::printer::lemma_function_text(f);
        assert(formula_text(e) == name + seq![40u8] + args_text(a) + seq![41u8]);
        assert(name + seq![40u8] + args_text(a) + seq![41u8] =~= name + (seq![40u8] + (args_text(a) + seq![41u8])));
        lemma_text_at_split(s, p, name, seq![40u8] + (args_text(a) + seq![41u8]));
        lemma_text_at_split(s, p + name.len(), seq![40u8], args_text(a) + seq![41u8]);
        assert forall|j: int| p <= j < p + name.len() implies in_class(#[trigger] s[j], 2) by {
            lemma_text_at_index(s, p, name, j - p);
        }
        lemma_text_at_index(s, p + name.len(), seq![40u8], 0);
        lemma_run_end(s, p, p + name.len(), 2);
        lemma_run_end(s, p + name.len(), p + name.len(), 1);
    } else {
        lemma_run_end(s, p, p, 2);
    }
}

proof fn lemma_run_end_idem(s: Seq<u8>, p: int, class: int)
    requires
        0 <= p <= s.len(),
    ensures
        run_end(s, run_end(s, p, class), class) == run_end(s, p, class),
{
    lemma_run_end_bounds(s, p, class);
    let q = run_end(s, p, class);
    lemma_run_end(s, q, q, class);
}
/// Deep equality of formulas: the same tree, argument lists compared item
/// by item.
pub open spec fn deep_eq(a: Expr, b: Expr) -> bool
    decreases a,
{
    match a {
        Expr::Number(n) => b == Expr::Number(n),
        Expr::Cell(c) => b == Expr::Cell(c),
        Expr::BinaryOp(l, op, r) => b is BinaryOp && b->BinaryOp_1 == op && deep_eq(*l, *(b->BinaryOp_0))
            && deep_eq(*r, *(b->BinaryOp_2)),
        Expr::Function(f, args) => b is Function && b->Function_0 == f && args_deep_eq(args@, b->Function_1@),
        Expr::Range(x, y) => b == Expr::Range(x, y),
    }
}

pub open spec fn args_deep_eq(a: Seq<Expr>, b: Seq<Expr>) -> bool
    decreases a,
{
    a.len() == b.len() && (a.len() == 0 || (args_deep_eq(a.drop_last(), b.drop_last()) && deep_eq(
        a.last(),
        b.last(),
    )))
}

pub proof fn lemma_deep_eq_refl(e: Expr)
    ensures
        deep_eq(e, e),
    decreases e,
{
    match e {
        Expr::BinaryOp(l, _, r) => {
            lemma_deep_eq_refl(*l);
            lemma_deep_eq_refl(*r);
        },
        Expr::Function(_, args) => {
            lemma_args_deep_eq_refl(args@);
        },
        _ => {},
    }
}

pub proof fn lemma_args_deep_eq_refl(a: Seq<Expr>)
    ensures
        args_deep_eq(a, a),
    decreases a,
{
    if a.len() > 0 {
        lemma_args_deep_eq_refl(a.drop_last());
        lemma_deep_eq_refl(a.last());
    }
}

/// Deeply equal formulas name the same cells.
pub proof fn lemma_deep_eq_bounds(a: Expr, b: Expr, rows: i32, cols: i32)
    requires
        deep_eq(a, b),
    ensures
        crate::expr::expr_in_bounds(a, rows, cols) == crate::expr::expr_in_bounds(b, rows, cols),
    decreases a,
{
    match a {
        Expr::BinaryOp(l, _, r) => {
            lemma_deep_eq_bounds(*l, *(b->BinaryOp_0), rows, cols);
            lemma_deep_eq_bounds(*r, *(b->BinaryOp_2), rows, cols);
        },
        Expr::Function(_, args) => {
            lemma_args_deep_eq_bounds(args@, b->Function_1@, rows, cols);
        },
        _ => {},
    }
}

proof fn lemma_args_deep_eq_bounds(a: Seq<Expr>, b: Seq<Expr>, rows: i32, cols: i32)
    requires
        args_deep_eq(a, b),
    ensures
        crate::expr::args_in_bounds(a, rows, cols) == crate::expr::args_in_bounds(b, rows, cols),
    decreases a,
{
    if a.len() > 0 {
        lemma_args_deep_eq_bounds(a.drop_last(), b.drop_last(), rows, cols);
        lemma_deep_eq_bounds(a.last(), b.last(), rows, cols);
    }
}

/// The parse returned a tree deeply equal to `e`, ending at `end`.
pub open spec fn parsed_as(r: Result<(Expr, usize), ()>, e: Expr, end: int) -> bool {
    r matches Ok((x, p)) && deep_eq(x, e) && p == end
}

/// The arguments `a`, then `)`, printed from `pos`.
pub open spec fn args_fit(s: Seq<u8>, pos: int, a: Seq<Expr>) -> bool {
    &&& args_well_formed(a)
    &&& args_printable(a)
    &&& text_at(s, run_end(s, pos, 0), args_text(a) + seq![41u8])
}

pub open spec fn args_end(s: Seq<u8>, pos: int, a: Seq<Expr>) -> int {
    run_end(s, pos, 0) + args_text(a).len() + 1
}

/// Offset of the `i`-th argument's text within the printed list.
pub open spec fn arg_offset(a: Seq<Expr>, i: int) -> int {
    if i == 0 {
        0
    } else {
        args_text(a.subrange(0, i)).len() + 2int
    }
}

proof fn lemma_args_text_prefix(a: Seq<Expr>, j: int)
    requires
        1 <= j <= a.len(),
    ensures
        args_text(a.subrange(0, j)).len() <= args_text(a).len(),
        args_text(a) .subrange(0, args_text(a.subrange(0, j)).len() as int) == args_text(a.subrange(0, j)),
        j < a.len() ==> args_text(a.subrange(0, j)).len() + 2 <= args_text(a).len(),
        j < a.len() ==> args_text(a)[args_text(a.subrange(0, j)).len() as int] == 44u8
            && args_text(a)[args_text(a.subrange(0, j)).len() + 1int] == 32u8,
    decreases a.len(),
{
    if j == a.len() {
        assert(a.subrange(0, j) =~= a);
    } else {
        let d = a.drop_last();
        assert(d.subrange(0, j) =~= a.subrange(0, j));
        lemma_args_text_prefix(d, j);
        let t = args_text(a);
        let td = args_text(d);
        let sep = seq![44u8, 32u8];
        assert(a.len() >= 2);
        assert(t == td + sep + formula_text(a.last()));
        let k = args_text(a.subrange(0, j)).len() as int;
        assert(t.subrange(0, k) =~= td.subrange(0, k));
        if j == d.len() {
            assert(d.subrange(0, j) =~= d);
            assert(t[k] == 44u8);
            assert(t[k + 1] == 32u8);
        } else {
            assert(t[k] == td[k]);
            assert(t[k + 1] == td[k + 1]);
        }
    }
}

proof fn lemma_args_item(a: Seq<Expr>, i: int)
    requires
        0 <= i < a.len(),
    ensures
        args_text(a.subrange(0, i + 1)) == args_text(a.subrange(0, i)) + (if i == 0 {
            Seq::<u8>::empty()
        } else {
            seq![44u8, 32u8]
        }) + formula_text(a[i]),
{
    let p = a.subrange(0, i + 1);
    assert(p.drop_last() =~= a.subrange(0, i));
    assert(p.last() == a[i]);
    if i == 0 {
        assert(p.len() == 1);
        assert(a.subrange(0, 0) =~= Seq::<Expr>::empty());
        assert(args_text(p) == formula_text(p[0]));
        assert(args_text(a.subrange(0, 0)) =~= Seq::<u8>::empty());
        assert(args_text(p) =~= Seq::<u8>::empty() + Seq::<u8>::empty() + formula_text(a[i]));
    }
}

/// Where each argument's text stands and what follows it.
proof fn lemma_args_layout(s: Seq<u8>, p0: int, a: Seq<Expr>, i: int)
    requires
        text_at(s, p0, args_text(a) + seq![41u8]),
        0 <= i < a.len(),
    ensures
        text_at(s, p0 + arg_offset(a, i), formula_text(a[i])),
        ({
            let e = p0 + arg_offset(a, i) + formula_text(a[i]).len();
            &&& i + 1 < a.len() ==> s[e] == 44u8 && s[e + 1] == 32u8 && arg_offset(a, i + 1) == e + 2 - p0
            &&& i + 1 == a.len() ==> s[e] == 41u8 && e == p0 + args_text(a).len()
        }),
{
    let t = args_text(a) + seq![41u8];
    lemma_args_item(a, i);
    lemma_args_text_prefix(a, i + 1);
    let pre = args_text(a.subrange(0, i + 1));
    let before = args_text(a.subrange(0, i));
    let off = arg_offset(a, i);
    assert(pre.len() == off + formula_text(a[i]).len()) by {
        if i > 0 {
            assert(off == before.len() + 2);
        } else {
            assert(before =~= Seq::<u8>::empty()) by {
                assert(a.subrange(0, 0) =~= Seq::<Expr>::empty());
            }
        }
    }
    assert(s.subrange(p0, p0 + t.len()) == t);
    assert forall|j: int| 0 <= j < formula_text(a[i]).len() implies s.subrange(p0 + off, p0 + off + formula_text(a[i]).len())[j]
        == formula_text(a[i])[j] by {
        assert(s[p0 + off + j] == t[off + j]);
        assert(t[off + j] == args_text(a)[off + j]);
        assert(args_text(a)[off + j] == pre[off + j]);
        assert(pre[off + j] == formula_text(a[i])[j]);
    }
    assert(s.subrange(p0 + off, p0 + off + formula_text(a[i]).len()) =~= formula_text(a[i]));
    let e = p0 + off + formula_text(a[i]).len();
    if i + 1 < a.len() {
        assert(s[e] == t[pre.len() as int]);
        assert(s[e + 1] == t[pre.len() + 1int]);
    } else {
        assert(a.subrange(0, i + 1) =~= a);
        assert(s[e] == t[pre.len() as int]);
    }
}

proof fn lemma_blank_free_start(s: Seq<u8>, p: int, e: Expr)
    requires
        printable(e),
        text_at(s, p, formula_text(e)),
    ensures
        run_end(s, p, 0) == p,
        p < s.len(),
        !in_class(s[p], 0),
{
    lemma_text_start(e);
    lemma_text_at_index(s, p, formula_text(e), 0);
}

/// The parts of `l op r` as the printer writes it.
proof fn lemma_pair_parts(s: Seq<u8>, pos: int, l: Expr, op: char, x: Expr)
    requires
        pair_fits(s, pos, l, op, x),
    ensures
        factor_fits(s, pos, l),
        s[op_pos(s, pos, l)] == op_byte(op),
        (op == '+' || op == '-') ==> term_fits(s, pos, l),
        factor_fits(s, op_pos(s, pos, l) + 1, x),
        end_of(s, op_pos(s, pos, l) + 1, x) == pair_end(s, pos, l, op, x),
{
    let el = end_of(s, pos, l);
    lemma_run_end_bounds(s, el, 0);
}

/// `expr := term (('+' | '-') term)*`
fn parse_expr(s: &[u8], pos: usize) -> (r: Result<(Expr, usize), ()>)
    requires
        pos <= s@.len(),
    ensures
        r matches Ok((e, p)) ==> pos < p <= s@.len() && well_formed(e) && printable(e),
        r matches Ok((e, p)) ==> balanced(s@, pos as int, p as int),
        run_end(s@, pos as int, 0) >= s@.len() ==> r is Err,
        sign_without_digits(s@, pos as int) ==> r is Err,
        unknown_name_at(s@, pos as int) ==> r is Err,
        bad_ref_at(s@, pos as int) ==> r is Err,
        forall|e: Expr| #[trigger] expr_fits(s@, pos as int, e) ==> parsed_as(r, e, end_of(s@, pos as int, e)),
        forall|l: Expr, op: char, x: Expr|
            #[trigger] pair_fits(s@, pos as int, l, op, x) && next_not(s@, pair_end(s@, pos as int, l, op, x), 42, 47)
                && next_not(s@, pair_end(s@, pos as int, l, op, x), 43, 45) ==> parsed_as(
                r,
                Expr::BinaryOp(Box::new(l), op, Box::new(x)),
                pair_end(s@, pos as int, l, op, x),
            ),
    decreases s@.len() - pos, 2int,
{
    let first = parse_term(s, pos);
    let (mut e, mut p) = match first {
        Ok(v) => v,
        Err(_) => {
            proof {
                assert forall|l: Expr, op: char, x: Expr| #[trigger] pair_fits(s@, pos as int, l, op, x) implies !(
                next_not(s@, pair_end(s@, pos as int, l, op, x), 42, 47) && next_not(s@, pair_end(s@, pos as int, l, op, x), 43, 45)) by {
                    lemma_pair_parts(s@, pos as int, l, op, x);
                }
            }
            return Err(());
        },
    };
    proof {
        assert forall|l: Expr, op: char, x: Expr| #[trigger] pair_fits(s@, pos as int, l, op, x) && (op == '+' || op == '-')
            implies p == end_of(s@, pos as int, l) && deep_eq(e, l) by {
            lemma_pair_parts(s@, pos as int, l, op, x);
        }
    }
    loop
        invariant
            pos < p <= s@.len(),
            well_formed(e),
            printable(e),
            balanced(s@, pos as int, p as int),
            run_end(s@, pos as int, 0) < s@.len(),
            !sign_without_digits(s@, pos as int),
            !unknown_name_at(s@, pos as int),
            !bad_ref_at(s@, pos as int),
            forall|E: Expr| #[trigger] expr_fits(s@, pos as int, E) ==> deep_eq(e, E) && p == end_of(s@, pos as int, E),
            forall|l: Expr, op: char, x: Expr|
                #[trigger] pair_fits(s@, pos as int, l, op, x) && next_not(s@, pair_end(s@, pos as int, l, op, x), 42, 47)
                    && next_not(s@, pair_end(s@, pos as int, l, op, x), 43, 45) ==> if op == '*' || op == '/' {
                    deep_eq(e, Expr::BinaryOp(Box::new(l), op, Box::new(x))) && p == pair_end(s@, pos as int, l, op, x)
                } else {
                    (p == end_of(s@, pos as int, l) && deep_eq(e, l)) || (p == pair_end(s@, pos as int, l, op, x)
                        && deep_eq(e, Expr::BinaryOp(Box::new(l), op, Box::new(x))))
                },
        decreases s@.len() - p,
    {
        let q = skip_spaces(s, p);
        if at(s, q, 43u8) || at(s, q, 45u8) {
            let op = if s[q] == 43u8 { '+' } else { '-' };
            let next = parse_term(s, q + 1);
            match next {
                Ok((right, p2)) => {
                    let ghost old_e = e;
                    let ghost old_p = p;
                    e = Expr::BinaryOp(Box::new(e), op, Box::new(right));
                    p = p2;
                    proof {
                        lemma_run_no_paren(s@, old_p as int, 0);
                        assert(no_paren(s@, old_p as int, q + 1));
                        lemma_no_paren_balanced(s@, old_p as int, q + 1);
                        lemma_balanced_join(s@, pos as int, old_p as int, q + 1);
                        lemma_balanced_join(s@, pos as int, q + 1, p2 as int);
                    }
                    proof {
                        assert forall|l: Expr, op2: char, x: Expr|
                            #[trigger] pair_fits(s@, pos as int, l, op2, x) && next_not(s@, pair_end(s@, pos as int, l, op2, x), 42, 47)
                                && next_not(s@, pair_end(s@, pos as int, l, op2, x), 43, 45) && (op2 == '+' || op2 == '-')
                            implies p == pair_end(s@, pos as int, l, op2, x) && deep_eq(e, Expr::BinaryOp(Box::new(l), op2, Box::new(x))) by {
                            lemma_pair_parts(s@, pos as int, l, op2, x);
                            if old_p == pair_end(s@, pos as int, l, op2, x) {
                                assert(false);
                            }
                            assert(old_p == end_of(s@, pos as int, l));
                            assert(op == op2);
                            assert(term_fits(s@, q + 1, x));
                        }
                    }
                },
                Err(_) => {
                    proof {
                        assert forall|l: Expr, op2: char, x: Expr|
                            #[trigger] pair_fits(s@, pos as int, l, op2, x) implies !(next_not(s@, pair_end(s@, pos as int, l, op2, x), 42, 47)
                                && next_not(s@, pair_end(s@, pos as int, l, op2, x), 43, 45)) by {
                            lemma_pair_parts(s@, pos as int, l, op2, x);
                            if next_not(s@, pair_end(s@, pos as int, l, op2, x), 42, 47) && next_not(s@, pair_end(s@, pos as int, l, op2, x), 43, 45) {
                                if op2 == '+' || op2 == '-' {
                                    assert(p == end_of(s@, pos as int, l));
                                    assert(term_fits(s@, q + 1, x));
                                }
                            }
                        }
                    }
                    return Err(());
                },
            }
        } else {
            proof {
                assert forall|l: Expr, op2: char, x: Expr| #[trigger] pair_fits(s@, pos as int, l, op2, x) && (op2 == '+'
                    || op2 == '-') implies p != end_of(s@, pos as int, l) by {
                    lemma_pair_parts(s@, pos as int, l, op2, x);
                }
            }
            return Ok((e, p));
        }
    }
}

/// `term := factor (('*' | '/') factor)*`
fn parse_term(s: &[u8], pos: usize) -> (r: Result<(Expr, usize), ()>)
    requires
        pos <= s@.len(),
    ensures
        r matches Ok((e, p)) ==> pos < p <= s@.len() && well_formed(e) && printable(e),
        r matches Ok((e, p)) ==> balanced(s@, pos as int, p as int),
        run_end(s@, pos as int, 0) >= s@.len() ==> r is Err,
        sign_without_digits(s@, pos as int) ==> r is Err,
        unknown_name_at(s@, pos as int) ==> r is Err,
        bad_ref_at(s@, pos as int) ==> r is Err,
        forall|e: Expr| #[trigger] term_fits(s@, pos as int, e) ==> parsed_as(r, e, end_of(s@, pos as int, e)),
        forall|l: Expr, op: char, x: Expr|
            #[trigger] pair_fits(s@, pos as int, l, op, x) && (op == '*' || op == '/') && next_not(
                s@,
                pair_end(s@, pos as int, l, op, x),
                42,
                47,
            ) ==> parsed_as(r, Expr::BinaryOp(Box::new(l), op, Box::new(x)), pair_end(s@, pos as int, l, op, x)),
    decreases s@.len() - pos, 1int,
{
    let first = parse_factor(s, pos);
    let (mut e, mut p) = match first {
        Ok(v) => v,
        Err(_) => {
            proof {
                assert forall|l: Expr, op: char, x: Expr| #[trigger] pair_fits(s@, pos as int, l, op, x) implies !(
                (op == '*' || op == '/') && next_not(s@, pair_end(s@, pos as int, l, op, x), 42, 47)) by {
                    lemma_pair_parts(s@, pos as int, l, op, x);
                }
            }
            return Err(());
        },
    };
    proof {
        assert forall|l: Expr, op: char, x: Expr| #[trigger] pair_fits(s@, pos as int, l, op, x)
            implies p == end_of(s@, pos as int, l) && deep_eq(e, l) by {
            lemma_pair_parts(s@, pos as int, l, op, x);
        }
    }
    loop
        invariant
            pos < p <= s@.len(),
            well_formed(e),
            printable(e),
            balanced(s@, pos as int, p as int),
            run_end(s@, pos as int, 0) < s@.len(),
            !sign_without_digits(s@, pos as int),
            !unknown_name_at(s@, pos as int),
            !bad_ref_at(s@, pos as int),
            forall|E: Expr| #[trigger] term_fits(s@, pos as int, E) ==> deep_eq(e, E) && p == end_of(s@, pos as int, E),
            forall|l: Expr, op: char, x: Expr|
                #[trigger] pair_fits(s@, pos as int, l, op, x) && (op == '*' || op == '/') && next_not(
                    s@,
                    pair_end(s@, pos as int, l, op, x),
                    42,
                    47,
                ) ==> (p == end_of(s@, pos as int, l) && deep_eq(e, l)) || (p == pair_end(s@, pos as int, l, op, x)
                    && deep_eq(e, Expr::BinaryOp(Box::new(l), op, Box::new(x)))),
        decreases s@.len() - p,
    {
        let q = skip_spaces(s, p);
        if at(s, q, 42u8) || at(s, q, 47u8) {
            let op = if s[q] == 42u8 { '*' } else { '/' };
            let next = parse_factor(s, q + 1);
            match next {
                Ok((right, p2)) => {
                    let ghost old_e = e;
                    let ghost old_p = p;
                    e = Expr::BinaryOp(Box::new(e), op, Box::new(right));
                    p = p2;
                    proof {
                        lemma_run_no_paren(s@, old_p as int, 0);
                        assert(no_paren(s@, old_p as int, q + 1));
                        lemma_no_paren_balanced(s@, old_p as int, q + 1);
                        lemma_balanced_join(s@, pos as int, old_p as int, q + 1);
                        lemma_balanced_join(s@, pos as int, q + 1, p2 as int);
                    }
                    proof {
                        assert forall|l: Expr, op2: char, x: Expr|
                            #[trigger] pair_fits(s@, pos as int, l, op2, x) && (op2 == '*' || op2 == '/') && next_not(
                                s@,
                                pair_end(s@, pos as int, l, op2, x),
                                42,
                                47,
                            ) implies p == pair_end(s@, pos as int, l, op2, x) && deep_eq(e, Expr::BinaryOp(Box::new(l), op2, Box::new(x))) by {
                            lemma_pair_parts(s@, pos as int, l, op2, x);
                            if old_p == pair_end(s@, pos as int, l, op2, x) {
                                assert(false);
                            }
                            assert(old_p == end_of(s@, pos as int, l));
                            assert(op == op2);
                            assert(factor_fits(s@, q + 1, x));
                        }
                    }
                },
                Err(_) => {
                    proof {
                        assert forall|l: Expr, op2: char, x: Expr|
                            #[trigger] pair_fits(s@, pos as int, l, op2, x) && (op2 == '*' || op2 == '/') implies !next_not(
                                s@,
                                pair_end(s@, pos as int, l, op2, x),
                                42,
                                47,
                            ) by {
                            lemma_pair_parts(s@, pos as int, l, op2, x);
                            if next_not(s@, pair_end(s@, pos as int, l, op2, x), 42, 47) {
                                assert(p == end_of(s@, pos as int, l));
                                assert(factor_fits(s@, q + 1, x));
                            }
                        }
                    }
                    return Err(());
                },
            }
        } else {
            proof {
                assert forall|l: Expr, op2: char, x: Expr| #[trigger] pair_fits(s@, pos as int, l, op2, x) && (op2 == '*'
                    || op2 == '/') implies p != end_of(s@, pos as int, l) by {
                    lemma_pair_parts(s@, pos as int, l, op2, x);
                }
            }
            return Ok((e, p));
        }
    }
}

proof fn lemma_binop_layout(s: Seq<u8>, pos: int, e: Expr)
    requires
        factor_fits(s, pos, e),
        e is BinaryOp,
    ensures
        ({
            let p = run_end(s, pos, 0);
            let l = *(e->BinaryOp_0);
            let op = e->BinaryOp_1;
            let x = *(e->BinaryOp_2);
            &&& pair_fits(s, p + 1, l, op, x)
            &&& s[pair_end(s, p + 1, l, op, x)] == 41u8
            &&& pair_end(s, p + 1, l, op, x) < s.len()
            &&& run_end(s, pair_end(s, p + 1, l, op, x), 0) == pair_end(s, p + 1, l, op, x)
            &&& next_not(s, pair_end(s, p + 1, l, op, x), 42, 47)
            &&& next_not(s, pair_end(s, p + 1, l, op, x), 43, 45)
            &&& end_of(s, pos, e) == pair_end(s, p + 1, l, op, x) + 1
        }),
{
    let p = run_end(s, pos, 0);
    let l = *(e->BinaryOp_0);
    let op = e->BinaryOp_1;
    let x = *(e->BinaryOp_2);
    let tl = formula_text(l);
    let tx = formula_text(x);
    let mid = seq![32u8, op_byte(op), 32u8];
    assert(formula_text(e) == seq![40u8] + tl + mid + tx + seq![41u8]);
    lemma_text_at_split(s, p, seq![40u8] + tl + mid + tx, seq![41u8]);
    lemma_text_at_split(s, p, seq![40u8] + tl + mid, tx);
    lemma_text_at_split(s, p, seq![40u8] + tl, mid);
    lemma_text_at_split(s, p, seq![40u8], tl);
    assert(mid =~= seq![32u8, op_byte(op)] + seq![32u8]);
    lemma_text_at_split(s, p + 1 + tl.len(), seq![32u8, op_byte(op)], seq![32u8]);
    assert(printable(l) && printable(x));
    lemma_blank_free_start(s, p + 1, l);
    let el = p + 1 + tl.len();
    lemma_text_at_index(s, el + 2, seq![32u8], 0);
    lemma_blank_free_start(s, el + 3, x);
    lemma_run_end(s, el + 2, el + 3, 0);
    assert(end_of(s, p + 1, l) == el);
    lemma_text_at_index(s, el, seq![32u8, op_byte(op)], 0);
    lemma_text_at_index(s, el, seq![32u8, op_byte(op)], 1);
    lemma_run_end(s, el, el + 1, 0);
    assert(op_pos(s, p + 1, l) == el + 1);
    let pe = el + 3 + tx.len();
    lemma_text_at_index(s, pe, seq![41u8], 0);
    lemma_run_end(s, pe, pe, 0);
}

proof fn lemma_sleep_args(e: Expr)
    requires
        well_formed(e),
        e is Function,
    ensures
        args_well_formed(e->Function_1@),
{
    match e {
        Expr::Function(f, v) => {
            let args = v@;
            if f == FunctionName::Sleep {
                assert(args.len() == 1);
                assert(args.drop_last() =~= Seq::<Expr>::empty());
                assert(args_well_formed(args.drop_last()));
                assert(args.last() == args[0]);
                assert(well_formed(args[0]));
            }
        },
        _ => {},
    }
}

/// `factor := ['+' | '-'] number | cell | name '(' args ')' | '(' expr ')'`
fn parse_factor(s: &[u8], pos: usize) -> (r: Result<(Expr, usize), ()>)
    requires
        pos <= s@.len(),
    ensures
        r matches Ok((e, p)) ==> pos < p <= s@.len() && well_formed(e) && printable(e),
        r matches Ok((e, p)) ==> balanced(s@, pos as int, p as int),
        run_end(s@, pos as int, 0) >= s@.len() ==> r is Err,
        sign_without_digits(s@, pos as int) ==> r is Err,
        unknown_name_at(s@, pos as int) ==> r is Err,
        bad_ref_at(s@, pos as int) ==> r is Err,
        forall|e: Expr| #[trigger] factor_fits(s@, pos as int, e) ==> parsed_as(r, e, end_of(s@, pos as int, e)),
    decreases s@.len() - pos, 0int,
{
    let p = skip_spaces(s, pos);
    proof {
        assert forall|E: Expr| #[trigger] factor_fits(s@, pos as int, E) implies p < s@.len() && ({
            let t = formula_text(E);
            &&& s@[p as int] == t[0]
            &&& (E matches Expr::Number(n) ==> (n >= 0 ==> 48 <= t[0] <= 57) && (n < 0 ==> t[0] == 45))
            &&& (E is Cell || E is Function) ==> 65 <= t[0] <= 90
            &&& E is BinaryOp ==> t[0] == 40
            &&& !(E is Range)
        }) by {
            lemma_text_start(E);
            lemma_text_at_index(s@, p as int, formula_text(E), 0);
        }
    }
    proof {
        lemma_run_no_paren(s@, pos as int, 0);
    }
    if p >= s.len() {
        return Err(());
    }
    let c = s[p];
    if 48u8 <= c && c <= 57u8 {
        let res = match parse_digits(s, p, 0x7FFF_FFFF) {
            Some((v, q)) => {
                proof {
                    lemma_run_no_paren(s@, p as int, 1);
                    lemma_no_paren_join(s@, pos as int, p as int, q as int);
                    lemma_no_paren_balanced(s@, pos as int, q as int);
                }
                Ok((Expr::Number(v as i32), q))
            },
            None => Err(()),
        };
        proof {
            assert forall|E: Expr| #[trigger] factor_fits(s@, pos as int, E) implies parsed_as(res, E, end_of(s@, pos as int, E)) by {
                if let Expr::Number(n) = E {
                    lemma_printed_digits(s@, p as int, n as int);
                }
            }
        }
        res
    } else if c == 43u8 || c == 45u8 {
        let limit: u64 = if c == 45u8 { 0x8000_0000 } else { 0x7FFF_FFFF };
        let res = match parse_digits(s, p + 1, limit) {
            Some((v, q)) => {
                let n: i64 = if c == 45u8 { -(v as i64) } else { v as i64 };
                proof {
                    lemma_run_no_paren(s@, p + 1, 1);
                    assert(no_paren(s@, p as int, p + 1));
                    lemma_no_paren_join(s@, pos as int, p as int, p + 1);
                    lemma_no_paren_join(s@, pos as int, p + 1, q as int);
                    lemma_no_paren_balanced(s@, pos as int, q as int);
                }
                Ok((Expr::Number(n as i32), q))
            },
            None => Err(()),
        };
        proof {
            assert forall|E: Expr| #[trigger] factor_fits(s@, pos as int, E) implies parsed_as(res, E, end_of(s@, pos as int, E)) by {
                if let Expr::Number(n) = E {
                    lemma_text_at_split(s@, p as int, seq![45u8], digits_text(-n));
                    lemma_printed_digits(s@, p + 1, -n);
                }
            }
        }
        res
    } else if c == 40u8 {
        let inner = parse_expr(s, p + 1);
        proof {
            assert forall|E: Expr| #[trigger] factor_fits(s@, pos as int, E) implies ({
                let l = *(E->BinaryOp_0);
                let op = E->BinaryOp_1;
                let x = *(E->BinaryOp_2);
                &&& parsed_as(inner, Expr::BinaryOp(Box::new(l), op, Box::new(x)), pair_end(s@, p + 1, l, op, x))
                &&& s@[pair_end(s@, p + 1, l, op, x)] == 41u8
                &&& run_end(s@, pair_end(s@, p + 1, l, op, x), 0) == pair_end(s@, p + 1, l, op, x)
                &&& end_of(s@, pos as int, E) == pair_end(s@, p + 1, l, op, x) + 1
                &&& E == Expr::BinaryOp(Box::new(l), op, Box::new(x))
            }) by {
                lemma_binop_layout(s@, pos as int, E);
            }
        }
        match inner {
            Ok((e, q)) => {
                let q2 = skip_spaces(s, q);
                if at(s, q2, 41u8) {
                    proof {
                        lemma_run_no_paren(s@, q as int, 0);
                        lemma_wrap(s@, pos as int, p as int, q as int, q2 as int);
                    }
                    Ok((e, q2 + 1))
                } else {
                    Err(())
                }
            },
            Err(_) => Err(()),
        }
    } else if 65u8 <= c && c <= 90u8 || 97u8 <= c && c <= 122u8 {
        let mut q = p;
        while q < s.len() && (65u8 <= s[q] && s[q] <= 90u8 || 97u8 <= s[q] && s[q] <= 122u8)
            invariant
                p <= q <= s@.len(),
                run_end(s@, q as int, 3) == run_end(s@, p as int, 3),
            decreases s@.len() - q,
        {
            q = q + 1;
        }
        proof {
            lemma_run_end(s@, q as int, q as int, 3);
            lemma_run_end_bounds(s@, p as int, 3);
            assert forall|E: Expr| #[trigger] factor_fits(s@, pos as int, E) && E is Cell implies
                q == p + crate::cellname::column_label(E->Cell_0.column + 1).len() && q < s@.len() && in_class(s@[q as int], 1)
                && cell_at(s@, p as int) == Some((E->Cell_0, end_of(s@, pos as int, E))) by {
                let cc = E->Cell_0;
                let label = crate::cellname::column_label(cc.column + 1);
                crate::cellname::lemma_column_label(cc.column + 1);
                lemma_digits_text(cc.row + 1);
                lemma_text_at_split(s@, p as int, label, digits_text(cc.row + 1));
                assert forall|j: int| p <= j < p + label.len() implies in_class(#[trigger] s@[j], 3) by {
                    lemma_text_at_index(s@, p as int, label, j - p);
                }
                lemma_text_at_index(s@, p + label.len(), digits_text(cc.row + 1), 0);
                lemma_run_end(s@, p as int, p + label.len(), 3);
                lemma_printed_cell(s@, p as int, cc);
            }
            assert forall|E: Expr| #[trigger] factor_fits(s@, pos as int, E) && E is Function implies ({
                let f = E->Function_0;
                let name = function_text(f);
                &&& q == p + name.len()
                &&& q < s@.len()
                &&& s@[q as int] == 40u8
                &&& s@.subrange(p as int, q as int) == name
                &&& run_end(s@, q as int, 0) == q
                &&& args_fit(s@, q + 1, E->Function_1@)
                &&& end_of(s@, pos as int, E) == args_end(s@, q + 1, E->Function_1@)
            }) by {
                let f = E->Function_0;
                let a = E->Function_1@;
                let name = function_text(f);
                crate::printer::lemma_function_text(f);
                assert(formula_text(E) == name + seq![40u8] + args_text(a) + seq![41u8]);
                assert(name + seq![40u8] + args_text(a) + seq![41u8] =~= name + (seq![40u8] + (args_text(a) + seq![41u8])));
                lemma_text_at_split(s@, p as int, name, seq![40u8] + (args_text(a) + seq![41u8]));
                lemma_text_at_split(s@, p + name.len(), seq![40u8], args_text(a) + seq![41u8]);
                assert forall|j: int| p <= j < p + name.len() implies in_class(#[trigger] s@[j], 3) by {
                    lemma_text_at_index(s@, p as int, name, j - p);
                }
                lemma_text_at_index(s@, p + name.len(), seq![40u8], 0);
                lemma_run_end(s@, p as int, p + name.len(), 3);
                lemma_run_end(s@, q as int, q as int, 0);
                let t = args_text(a) + seq![41u8];
                if a.len() == 0 {
                    lemma_text_at_index(s@, q + 1, t, 0);
                } else {
                    lemma_args_layout(s@, q + 1, a, 0);
                    assert(printable(a[0])) by { crate::printer::lemma_args_printable(a, 0); }
                    lemma_blank_free_start(s@, q + 1, a[0]);
                    assert(arg_offset(a, 0) == 0);
                }
                lemma_run_end(s@, q + 1, q + 1, 0);
                lemma_sleep_args(E);
            }
        }
        if q < s.len() && 48u8 <= s[q] && s[q] <= 57u8 {
            match parse_cell_ref(s, p) {
                Some((cell, q2)) => {
                    proof {
                        lemma_run_no_paren(s@, p as int, 2);
                        let ke = run_end(s@, p as int, 2);
                        lemma_run_no_paren(s@, ke, 1);
                        lemma_no_paren_join(s@, pos as int, p as int, ke);
                        lemma_no_paren_join(s@, pos as int, ke, q2 as int);
                        lemma_no_paren_balanced(s@, pos as int, q2 as int);
                    }
                    Ok((Expr::Cell(cell), q2))
                },
                None => Err(()),
            }
        } else {
            let f = match function_named(s, p, q) {
                Some(f) => f,
                None => return Err(()),
            };
            let q2 = skip_spaces(s, q);
            if !at(s, q2, 40u8) {
                return Err(());
            }
            let parsed = parse_args(s, q2 + 1);
            let (args, q3) = match parsed {
                Ok(v) => v,
                Err(_) => return Err(()),
            };
            if f == FunctionName::Sleep {
                if args.len() != 1 {
                    return Err(());
                }
                match &args[0] {
                    Expr::Number(_) => {},
                    Expr::Cell(_) => {},
                    _ => {
                        proof {
                            assert forall|E: Expr| #[trigger] factor_fits(s@, pos as int, E) implies false by {
                                if E is Function {
                                    assert(args_deep_eq(args@, E->Function_1@));
                                    assert(args@.last() == args@[0]);
                                    assert(deep_eq(args@[0], E->Function_1@[0]));
                                }
                            }
                        }
                        return Err(());
                    },
                }
            }
            proof {
                lemma_run_no_paren(s@, p as int, 3);
                lemma_run_no_paren(s@, q as int, 0);
                lemma_no_paren_join(s@, pos as int, p as int, q as int);
                lemma_no_paren_join(s@, pos as int, q as int, q2 as int);
                lemma_call(s@, pos as int, q2 as int, q3 as int);
            }
            Ok((Expr::Function(f, args), q3))
        }
    } else {
        Err(())
    }
}

/// `args := [arg (',' arg)*] ')'` with `arg := cell ':' cell | expr`.
#[verifier::rlimit(40)]
fn parse_args(s: &[u8], pos: usize) -> (r: Result<(Vec<Expr>, usize), ()>)
    requires
        0 < pos <= s@.len(),
    ensures
        r matches Ok((args, p)) ==> pos <= p <= s@.len() && args_well_formed(args@) && args_printable(args@),
        r matches Ok((args, p)) ==> count_of(s@, pos as int, p as int, 41) == count_of(s@, pos as int, p as int, 40) + 1,
        forall|a: Seq<Expr>| #[trigger] args_fit(s@, pos as int, a) ==> (r matches Ok((v, p)) && args_deep_eq(v@, a)
            && p == args_end(s@, pos as int, a)),
    decreases s@.len() - pos, 3int,
{
    let mut args: Vec<Expr> = Vec::new();
    let first = skip_spaces(s, pos);
    proof {
        assert forall|a: Seq<Expr>| #[trigger] args_fit(s@, pos as int, a) implies (a.len() == 0 <==> at_spec(s@, first as int, 41u8)) by {
            let t = args_text(a) + seq![41u8];
            lemma_text_at_index(s@, first as int, t, 0);
            if a.len() > 0 {
                lemma_args_layout(s@, first as int, a, 0);
                assert(printable(a[0])) by { crate::printer::lemma_args_printable(a, 0); }
                lemma_text_start(a[0]);
                lemma_text_at_index(s@, first as int, formula_text(a[0]), 0);
                assert(arg_offset(a, 0) == 0);
            }
        }
    }
    if at(s, first, 41u8) {
        proof {
            assert forall|a: Seq<Expr>| #[trigger] args_fit(s@, pos as int, a) implies args_deep_eq(args@, a) by {}
            lemma_run_no_paren(s@, pos as int, 0);
            assert(count_of(s@, pos as int, pos as int, 40) == 0);
            assert(count_of(s@, pos as int, pos as int, 41) == 0);
            lemma_close(s@, pos as int, pos as int, first as int);
        }
        return Ok((args, first + 1));
    }
    let mut p = pos;
    loop
        invariant
            pos <= p <= s@.len(),
            0 < pos,
            first == run_end(s@, pos as int, 0),
            args_well_formed(args@),
            args_printable(args@),
            balanced(s@, pos as int, p as int),
            forall|a: Seq<Expr>| #[trigger] args_fit(s@, pos as int, a) ==> args@.len() < a.len() && args_deep_eq(
                args@,
                a.subrange(0, args@.len() as int),
            ) && run_end(s@, p as int, 0) == first + arg_offset(a, args@.len() as int),
        decreases s@.len() - p,
    {
        let start = skip_spaces(s, p);
        let ghost i = args@.len() as int;
        proof {
            assert forall|a: Seq<Expr>| #[trigger] args_fit(s@, pos as int, a) implies ({
                let ai = a[i];
                let ei = start + formula_text(ai).len();
                &&& text_at(s@, start as int, formula_text(ai))
                &&& readable(ai) || ai is Range
                &&& ei < s@.len()
                &&& (s@[ei] == 44u8 || s@[ei] == 41u8)
                &&& run_end(s@, ei, 0) == ei
                &&& (i + 1 < a.len() ==> s@[ei] == 44u8 && run_end(s@, ei + 1, 0) == first + arg_offset(a, i + 1))
                &&& (i + 1 == a.len() ==> s@[ei] == 41u8 && ei + 1 == args_end(s@, pos as int, a))
            }) by {
                lemma_args_layout(s@, first as int, a, i);
                let ai = a[i];
                crate::printer::lemma_args_printable(a, i);
                lemma_args_well_formed_item(a, i);
                let ei = start + formula_text(ai).len();
                lemma_run_end(s@, ei, ei, 0);
                if i + 1 < a.len() {
                    crate::printer::lemma_args_printable(a, i + 1);
                    lemma_args_layout(s@, first as int, a, i + 1);
                    lemma_blank_free_start(s@, first + arg_offset(a, i + 1), a[i + 1]);
                    lemma_run_end(s@, ei + 1, ei + 2, 0);
                }
            }
        }
        proof {
            lemma_run_no_paren(s@, p as int, 0);
        }
        let mut done = false;
        let mut next = start;
        let ghost before = args@;
        let first_cell = parse_cell_ref(s, start);
        proof {
            lemma_run_end_idem(s@, p as int, 0);
            assert forall|a: Seq<Expr>| #[trigger] args_fit(s@, pos as int, a) implies ({
                let ai = a[i];
                let ei = start + formula_text(ai).len();
                &&& (ai is Range ==> cell_at(s@, start as int) == Some((ai->Range_0, start + cell_text(ai->Range_0).len()))
                    && s@[start + cell_text(ai->Range_0).len()] == 58u8
                    && run_end(s@, start + cell_text(ai->Range_0).len(), 0) == start + cell_text(ai->Range_0).len()
                    && run_end(s@, start + cell_text(ai->Range_0).len() + 1, 0) == start + cell_text(ai->Range_0).len() + 1
                    && cell_at(s@, start + cell_text(ai->Range_0).len() + 1) == Some((ai->Range_1, ei)))
                &&& (ai is Cell ==> cell_at(s@, start as int) == Some((ai->Cell_0, ei)))
                &&& (!(ai is Range) && !(ai is Cell) ==> cell_at(s@, start as int) is None)
                &&& (!(ai is Range) ==> expr_fits(s@, start as int, ai))
            }) by {
                let ai = a[i];
                let ei = start + formula_text(ai).len();
                crate::printer::lemma_args_printable(a, i);
                lemma_args_well_formed_item(a, i);
                if ai is Range {
                    let x = ai->Range_0;
                    let y = ai->Range_1;
                    let tx = cell_text(x);
                    assert(formula_text(ai) == tx + seq![58u8] + cell_text(y));
                    lemma_text_at_split(s@, start as int, tx + seq![58u8], cell_text(y));
                    lemma_text_at_split(s@, start as int, tx, seq![58u8]);
                    lemma_text_at_index(s@, start + tx.len(), seq![58u8], 0);
                    lemma_printed_cell(s@, start as int, x);
                    lemma_run_end(s@, start + tx.len(), start + tx.len(), 0);
                    crate::cellname::lemma_column_label(y.column + 1);
                    lemma_text_at_split(s@, start + tx.len() + 1, crate::cellname::column_label(y.column + 1), digits_text(y.row + 1));
                    lemma_text_at_index(s@, start + tx.len() + 1, crate::cellname::column_label(y.column + 1), 0);
                    lemma_run_end(s@, start + tx.len() + 1, start + tx.len() + 1, 0);
                    lemma_printed_cell(s@, start + tx.len() + 1, y);
                } else {
                    if ai is Cell {
                        lemma_printed_cell(s@, start as int, ai->Cell_0);
                    } else {
                        lemma_no_cell_at(s@, start as int, ai);
                    }
                    lemma_blank_free_start(s@, start as int, ai);
                }
            }
        }
        if let Some((a, q)) = first_cell {
            let q1 = skip_spaces(s, q);
            if at(s, q1, 58u8) {
                let q2 = skip_spaces(s, q1 + 1);
                match parse_cell_ref(s, q2) {
                    Some((b, q3)) => {
                        args.push(Expr::Range(a, b));
                        assert(args@.drop_last() == before);
                        assert(printable(Expr::Range(a, b)));
                        next = q3;
                        done = true;
                        proof {
                            let ke = run_end(s@, start as int, 2);
                            lemma_run_no_paren(s@, start as int, 2);
                            lemma_run_no_paren(s@, ke, 1);
                            lemma_run_no_paren(s@, q as int, 0);
                            lemma_run_no_paren(s@, q1 + 1, 0);
                            let ke2 = run_end(s@, q2 as int, 2);
                            lemma_run_no_paren(s@, q2 as int, 2);
                            lemma_run_no_paren(s@, ke2, 1);
                            assert(no_paren(s@, p as int, q3 as int));
                            lemma_no_paren_balanced(s@, p as int, q3 as int);
                            lemma_balanced_join(s@, pos as int, p as int, q3 as int);
                        }
                        proof {
                            assert forall|a2: Seq<Expr>| #[trigger] args_fit(s@, pos as int, a2) implies deep_eq(args@.last(), a2[i])
                                && next == start + formula_text(a2[i]).len() by {
                                let ai = a2[i];
                                if ai is Cell {
                                    assert(false);
                                }
                            }
                        }
                    },
                    None => {
                        proof {
                            assert forall|a2: Seq<Expr>| #[trigger] args_fit(s@, pos as int, a2) implies false by {
                                let ai = a2[i];
                                if ai is Cell {
                                    assert(false);
                                }
                            }
                        }
                        return Err(());
                    },
                }
            }
        }
        if !done {
            proof {
                assert forall|a2: Seq<Expr>| #[trigger] args_fit(s@, pos as int, a2) implies !(a2[i] is Range) by {
                    if a2[i] is Range {
                        assert(first_cell is Some);
                    }
                }
            }
            let parsed = parse_expr(s, start);
            let (e, q) = match parsed {
                Ok(v) => v,
                Err(_) => return Err(()),
            };
            args.push(e);
            assert(args@.drop_last() == before);
            next = q;
            proof {
                lemma_no_paren_balanced(s@, p as int, start as int);
                lemma_balanced_join(s@, pos as int, p as int, start as int);
                lemma_balanced_join(s@, pos as int, start as int, q as int);
            }
            proof {
                assert forall|a2: Seq<Expr>| #[trigger] args_fit(s@, pos as int, a2) implies deep_eq(args@.last(), a2[i])
                    && next == start + formula_text(a2[i]).len() by {
                    assert(expr_fits(s@, start as int, a2[i]));
                    assert(end_of(s@, start as int, a2[i]) == start + formula_text(a2[i]).len());
                }
            }
        }
        proof {
            assert forall|a2: Seq<Expr>| #[trigger] args_fit(s@, pos as int, a2) implies args_deep_eq(args@, a2.subrange(0, i + 1)) by {
                lemma_args_deep_eq_push(before, args@.last(), a2, i);
                assert(before.push(args@.last()) =~= args@);
            }
        }
        let q = skip_spaces(s, next);
        proof {
            lemma_run_no_paren(s@, next as int, 0);
        }
        if at(s, q, 44u8) {
            proof {
                assert(no_paren(s@, next as int, q + 1));
                lemma_no_paren_balanced(s@, next as int, q + 1);
                lemma_balanced_join(s@, pos as int, next as int, q + 1);
            }
            p = q + 1;
        } else if at(s, q, 41u8) {
            proof {
                lemma_close(s@, pos as int, next as int, q as int);
            }
            proof {
                assert forall|a2: Seq<Expr>| #[trigger] args_fit(s@, pos as int, a2) implies args_deep_eq(args@, a2) by {
                    assert(a2.subrange(0, i + 1) =~= a2);
                }
            }
            return Ok((args, q + 1));
        } else {
            return Err(());
        }
    }
}

/// Parses the text of a formula (what follows `=`) into an expression.
/// Cell references are upper-case column letters and a one-based row;
/// function names may be in any case; a sign may precede a literal only.
/// Whatever `expr_to_string` writes for a formula reads back as the same
/// tree.
pub fn parse_formula(input: &str) -> (r: Result<Expr, ()>)
    ensures
        formula_read(input.spec_bytes(), r),
{
    parse_formula_bytes(input.as_bytes())
}

/// Parses the bytes of a formula (see `parse_formula`).
pub fn parse_formula_bytes(s: &[u8]) -> (r: Result<Expr, ()>)
    ensures
        formula_read(s@, r),
{
    proof {
        assert forall|e: Expr| readable(e) && s@ == #[trigger] formula_text(e) implies expr_fits(s@, 0, e)
            && end_of(s@, 0, e) == s@.len() by {
            assert(s@.subrange(0, s@.len() as int) =~= s@);
            lemma_blank_free_start(s@, 0, e);
            lemma_run_end(s@, s@.len() as int, s@.len() as int, 0);
        }
        assert forall|c: CellReference| name_printable(c) && text_at(s@, run_end(s@, 0, 0), #[trigger] cell_text(c))
            && at_spec(s@, run_end(s@, 0, 0) + cell_text(c).len(), 58u8) implies expr_fits(s@, 0, Expr::Cell(c)) by {
            let p0 = run_end(s@, 0, 0);
            let pe = p0 + cell_text(c).len();
            lemma_run_end(s@, pe, pe, 0);
        }
    }
    let (e, p) = match parse_expr(s, 0) {
        Ok(v) => v,
        Err(_) => return Err(()),
    };
    let q = skip_spaces(s, p);
    if q == s.len() {
        proof {
            lemma_run_no_paren(s@, p as int, 0);
            lemma_no_paren_balanced(s@, p as int, q as int);
            lemma_balanced_join(s@, 0, p as int, q as int);
        }
        Ok(e)
    } else {
        proof {
            assert forall|l: Expr, op: char, x: Expr| #[trigger] pair_fits(s@, 0, l, op, x) implies run_end(s@, pair_end(s@, 0, l, op, x), 0) != s@.len() by {
                if run_end(s@, pair_end(s@, 0, l, op, x), 0) == s@.len() {
                    assert(p == pair_end(s@, 0, l, op, x));
                }
            }
        }
        Err(())
    }
}

/// What reading the text `s` of a formula gives:
/// - a tree of the shape `well_formed` states, whose names `printable` can write;
/// - for what `formula_text` writes of a formula, that formula;
/// - for `l op r` with each operand as `formula_text` writes it and blanks
///   allowed around the operator (`A1+2`, `10 / 0`), that operation;
/// - an error for a text of blanks only, for a sign that no digit follows
///   (`-A1`), for a name that is no function (`FOO(1)`), for letters and
///   digits that name no cell (`A0`, `a1`), for unmatched parentheses
///   (`MAX(A1`), and for a cell name followed by `:` (a range outside a
///   function).
pub open spec fn formula_read(s: Seq<u8>, r: Result<Expr, ()>) -> bool {
    &&& r matches Ok(e) ==> well_formed(e) && printable(e)
    &&& forall|e: Expr| readable(e) && s == #[trigger] formula_text(e) ==> (r matches Ok(x) && deep_eq(x, e))
    &&& forall|l: Expr, op: char, x: Expr| #[trigger] pair_fits(s, 0, l, op, x) && run_end(s, pair_end(s, 0, l, op, x), 0) == s.len()
        ==> (r matches Ok(y) && deep_eq(y, Expr::BinaryOp(Box::new(l), op, Box::new(x))))
    &&& run_end(s, 0, 0) >= s.len() ==> r is Err
    &&& sign_without_digits(s, 0) ==> r is Err
    &&& unknown_name_at(s, 0) ==> r is Err
    &&& bad_ref_at(s, 0) ==> r is Err
    &&& !balanced(s, 0, s.len() as int) ==> r is Err
    &&& forall|c: CellReference| name_printable(c) && text_at(s, run_end(s, 0, 0), #[trigger] cell_text(c)) && at_spec(
        s,
        run_end(s, 0, 0) + cell_text(c).len(),
        58u8,
    ) ==> r is Err
}

pub open spec fn is_blank(b: u8) -> bool {
    b == 32 || b == 9 || b == 10 || b == 13
}

/// The first position from `p` on, before `to`, that holds no blank.
pub open spec fn lead_end(b: Seq<u8>, p: int, to: int) -> int
    decreases to - p,
{
    if p < to && 0 <= p < b.len() && is_blank(b[p]) {
        lead_end(b, p + 1, to)
    } else {
        p
    }
}

/// The end of `b[from..q]` once its trailing blanks are dropped.
pub open spec fn trail_start(b: Seq<u8>, from: int, q: int) -> int
    decreases q - from,
{
    if q > from && 0 < q <= b.len() && is_blank(b[q - 1]) {
        trail_start(b, from, q - 1)
    } else {
        q
    }
}

/// The text before the `=` at `i`, without surrounding blanks.
pub open spec fn name_part(b: Seq<u8>, i: int) -> Seq<u8> {
    let a = lead_end(b, 0, i);
    b.subrange(a, trail_start(b, a, i))
}

/// `b` holds exactly one `=`, at `i`.
pub open spec fn single_eq(b: Seq<u8>, i: int) -> bool {
    0 <= i < b.len() && b[i] == 61 && forall|j: int| 0 <= j < b.len() && j != i ==> #[trigger] b[j] != 61
}

/// What reading the assignment line `b`, whose only `=` is at `i`, gives
/// for a `rows` x `cols` grid: an error unless the name denotes a cell of
/// the grid; for a formula text that the printer writes, that formula when
/// it names only cells of the grid, else an error.
pub open spec fn assignment_read(b: Seq<u8>, i: int, rows: i32, cols: i32, r: Result<(i32, i32, Expr), ()>) -> bool {
    let name = cell_name_value(name_part(b, i));
    let rhs = b.subrange(i + 1, b.len() as int);
    &&& (name is None || !crate::expr::in_grid(name->Some_0, rows, cols)) ==> r is Err
    &&& forall|f: Expr|
        readable(f) && rhs == #[trigger] formula_text(f) && name is Some && crate::expr::in_grid(name->Some_0, rows, cols)
            ==> if crate::expr::expr_in_bounds(f, rows, cols) {
            r matches Ok((row, col, e)) && row == name->Some_0.row && col == name->Some_0.column && deep_eq(e, f)
        } else {
            r is Err
        }
    &&& r matches Ok((row, col, e)) ==> name == Some(CellReference { row, column: col }) && crate::expr::in_grid(
        name->Some_0,
        rows,
        cols,
    ) && well_formed(e) && crate::expr::expr_in_bounds(e, rows, cols)
}

/// The bounds of `s[from..to]` without its leading and trailing blanks.
fn trim_bounds(s: &[u8], from: usize, to: usize) -> (r: (usize, usize))
    requires
        from <= to <= s@.len(),
    ensures
        from <= r.0 <= r.1 <= to,
        forall|j: int| from <= j < r.0 ==> is_blank(#[trigger] s@[j]),
        forall|j: int| r.1 <= j < to ==> is_blank(#[trigger] s@[j]),
        r.0 < r.1 ==> !is_blank(s@[r.0 as int]) && !is_blank(s@[r.1 - 1]),
        r.0 == lead_end(s@, from as int, to as int),
        r.1 == trail_start(s@, r.0 as int, to as int),
{
    let mut a = from;
    while a < to && (s[a] == 32u8 || s[a] == 9u8 || s[a] == 10u8 || s[a] == 13u8)
        invariant
            from <= a <= to <= s@.len(),
            forall|j: int| from <= j < a ==> is_blank(#[trigger] s@[j]),
            lead_end(s@, a as int, to as int) == lead_end(s@, from as int, to as int),
        decreases to - a,
    {
        a = a + 1;
    }
    let mut b = to;
    while b > a && (s[b - 1] == 32u8 || s[b - 1] == 9u8 || s[b - 1] == 10u8 || s[b - 1] == 13u8)
        invariant
            from <= a <= b <= to <= s@.len(),
            forall|j: int| b <= j < to ==> is_blank(#[trigger] s@[j]),
            a == lead_end(s@, from as int, to as int),
            trail_start(s@, a as int, b as int) == trail_start(s@, a as int, to as int),
        decreases b - a,
    {
        b = b - 1;
    }
    (a, b)
}

/// The position of the only `=` of `s`, if it holds exactly one.
fn single_equals(s: &[u8]) -> (r: Option<usize>)
    ensures
        r matches Some(i) ==> i < s@.len() && s@[i as int] == 61 && forall|j: int| 0 <= j < s@.len() && j != i ==> #[trigger] s@[j] != 61,
        r is None ==> !exists|i: int| 0 <= i < s@.len() && s@[i] == 61 && forall|j: int| 0 <= j < s@.len() && j != i ==> #[trigger] s@[j] != 61,
{
    let mut found: Option<usize> = None;
    let mut i: usize = 0;
    while i < s.len()
        invariant
            i <= s@.len(),
            found matches Some(k) ==> k < i && s@[k as int] == 61 && forall|j: int| 0 <= j < i && j != k ==> #[trigger] s@[j] != 61,
            found is None ==> forall|j: int| 0 <= j < i ==> #[trigger] s@[j] != 61,
        decreases s@.len() - i,
    {
        if s[i] == 61u8 {
            if found.is_some() {
                proof {
                    let k = found->Some_0;
                    assert forall|m: int| 0 <= m < s@.len() && s@[m] == 61 implies !(forall|j: int| 0 <= j < s@.len() && j != m ==> #[trigger] s@[j] != 61) by {
                        if m != k {
                            assert(s@[k as int] == 61);
                        } else {
                            assert(s@[i as int] == 61);
                        }
                    }
                }
                return None;
            }
            found = Some(i);
        }
        i = i + 1;
    }
    found
}

/// Reads an assignment `CELL=FORMULA` for a `rows` x `cols` grid: the only
/// `=` splits the line, blanks around the cell name are ignored, the cell
/// must lie in the grid, and the formula must parse and name only cells of
/// the grid.
pub fn parse_input(input: &str, rows: i32, cols: i32) -> (r: Result<(i32, i32, Expr), ()>)
    ensures
        (forall|i: int| !#[trigger] single_eq(input.spec_bytes(), i)) ==> r is Err,
        forall|i: int| #[trigger] single_eq(input.spec_bytes(), i) ==> assignment_read(input.spec_bytes(), i, rows, cols, r),
{
    let s = input.as_bytes();
    let eq = match single_equals(s) {
        Some(i) => i,
        None => {
            proof {
                assert forall|i: int| !#[trigger] single_eq(s@, i) by {}
            }
            return Err(());
        },
    };
    let (a, z) = trim_bounds(s, 0, eq);
    let name = &s[a..z];
    assert(name@ == s@.subrange(a as int, z as int));
    proof {
        assert(single_eq(s@, eq as int));
        assert forall|i: int| #[trigger] single_eq(s@, i) implies i == eq by {
            if i != eq {
                assert(s@[eq as int] != 61);
            }
        }
    }
    let cell = match cell_name_bytes(name) {
        Some(c) => c,
        None => return Err(()),
    };
    if cell.row < 0 || cell.row >= rows || cell.column < 0 || cell.column >= cols {
        return Err(());
    }
    let n = s.len();
    let rhs = &s[eq + 1..n];
    assert(rhs@ == s@.subrange(eq + 1, n as int));
    let e = match parse_formula_bytes(rhs) {
        Ok(e) => e,
        Err(_) => return Err(()),
    };
    proof {
        assert forall|f: Expr| readable(f) && rhs@ == #[trigger] formula_text(f) implies crate::expr::expr_in_bounds(e, rows, cols)
            == crate::expr::expr_in_bounds(f, rows, cols) by {
            lemma_deep_eq_bounds(e, f, rows, cols);
        }
    }
    if !crate::expr::check_in_bounds(&e, rows, cols) {
        return Err(());
    }
    Ok((cell.row, cell.column, e))
}

} // verus!

verus! {

/// A formula read from any text can be written out and read back to the
/// same tree: what a read gives is readable, and reading the text of a
/// readable formula gives it back.
pub proof fn lemma_print_reparse(text: Seq<u8>, first: Result<Expr, ()>, again: Result<Expr, ()>)
    requires
        formula_read(text, first),
        first is Ok,
        formula_read(formula_text(first->Ok_0), again),
    ensures
        again matches Ok(x) && deep_eq(x, first->Ok_0),
{
    assert(readable(first->Ok_0));
}

} // verus!
