use vstd::prelude::*;
use crate::cell::CellReference;
use vstd::string::StringSliceAdditionalSpecFns;

verus! {

/// Number of leading upper-case letters of `s`.
pub open spec fn letter_run(s: Seq<u8>) -> nat
    decreases s.len(),
{
    if s.len() == 0 || !(65 <= s[0] <= 90) {
        0
    } else {
        1 + letter_run(s.drop_first())
    }
}

/// Value of a column label: `A` is 1, `Z` 26, `AA` 27 (bijective base 26).
pub open spec fn column_number(letters: Seq<u8>) -> int
    decreases letters.len(),
{
    if letters.len() == 0 {
        0
    } else {
        column_number(letters.drop_last()) * 26 + (letters.last() - 64)
    }
}

pub open spec fn all_digits(s: Seq<u8>) -> bool {
    forall|i: int| 0 <= i < s.len() ==> 48 <= #[trigger] s[i] <= 57
}

/// Value of a run of decimal digits.
pub open spec fn digits_value(s: Seq<u8>) -> int
    decreases s.len(),
{
    if s.len() == 0 {
        0
    } else {
        digits_value(s.drop_last()) * 10 + (s.last() - 48)
    }
}

/// The cell a name such as `B12` denotes: upper-case column letters, then
/// the one-based row in decimal; `None` if the name has another shape or a
/// part is beyond `i32`.
pub open spec fn cell_name_value(s: Seq<u8>) -> Option<CellReference> {
    let k = letter_run(s) as int;
    let col = column_number(s.subrange(0, k));
    let row = digits_value(s.subrange(k, s.len() as int));
    if k >= 1 && k < s.len() && all_digits(s.subrange(k, s.len() as int)) && col <= 0x8000_0000 && 1 <= row
        <= 0x8000_0000 {
        Some(CellReference { row: (row - 1) as i32, column: (col - 1) as i32 })
    } else {
        None
    }
}

/// The integer a text such as `-42` or `+7` denotes: an optional sign and
/// at least one decimal digit; `None` if it has another shape or lies
/// outside `i32`.
pub open spec fn int_text_value(s: Seq<u8>) -> Option<i32> {
    let signed = s.len() > 0 && (s[0] == 45 || s[0] == 43);
    let digits = if signed { s.drop_first() } else { s };
    let v = if signed && s[0] == 45 { -digits_value(digits) } else { digits_value(digits) };
    if digits.len() >= 1 && all_digits(digits) && i32::MIN <= v <= i32::MAX {
        Some(v as i32)
    } else {
        None
    }
}

/// The label of the column with one-based number `n`.
pub open spec fn column_label(n: int) -> Seq<u8>
    decreases n,
{
    if n <= 26 {
        seq![(n + 64) as u8]
    } else {
        column_label((n - 1) / 26).push((((n - 1) % 26) + 65) as u8)
    }
}

pub proof fn lemma_letters_value(s: Seq<u8>, i: int)
    requires
        0 <= i <= s.len(),
        forall|j: int| 0 <= j < s.len() ==> 65 <= #[trigger] s[j] <= 90,
    ensures
        0 <= column_number(s.subrange(0, i)) <= column_number(s),
        i < s.len() ==> column_number(s.subrange(0, i)) < column_number(s),
    decreases s.len() - i,
{
    if i < s.len() {
        lemma_letters_value(s, i + 1);
        assert(s.subrange(0, i + 1).drop_last() =~= s.subrange(0, i));
        let p = s.subrange(0, i);
        assert forall|j: int| 0 <= j < p.len() implies 65 <= #[trigger] p[j] <= 90 by {
            assert(p[j] == s[j]);
        }
        lemma_letters_nonneg(p);
    } else {
        assert(s.subrange(0, i) =~= s);
        lemma_letters_nonneg(s);
    }
}

pub proof fn lemma_letters_nonneg(s: Seq<u8>)
    requires
        forall|j: int| 0 <= j < s.len() ==> 65 <= #[trigger] s[j] <= 90,
    ensures
        0 <= column_number(s),
        s.len() > 0 ==> 1 <= column_number(s),
    decreases s.len(),
{
    if s.len() > 0 {
        lemma_letters_nonneg(s.drop_last());
    }
}

pub proof fn lemma_digits_value(s: Seq<u8>, i: int)
    requires
        0 <= i <= s.len(),
        all_digits(s),
    ensures
        0 <= digits_value(s.subrange(0, i)) <= digits_value(s),
    decreases s.len() - i,
{
    if i < s.len() {
        lemma_digits_value(s, i + 1);
        assert(s.subrange(0, i + 1).drop_last() =~= s.subrange(0, i));
    } else {
        assert(s.subrange(0, i) =~= s);
        lemma_digits_nonneg(s);
    }
}

pub proof fn lemma_digits_nonneg(s: Seq<u8>)
    requires
        all_digits(s),
    ensures
        0 <= digits_value(s),
    decreases s.len(),
{
    if s.len() > 0 {
        lemma_digits_nonneg(s.drop_last());
    }
}

proof fn lemma_letter_run(s: Seq<u8>)
    ensures
        letter_run(s) <= s.len(),
        forall|j: int| 0 <= j < letter_run(s) ==> 65 <= #[trigger] s[j] <= 90,
        letter_run(s) < s.len() ==> !(65 <= s[letter_run(s) as int] <= 90),
    decreases s.len(),
{
    if s.len() > 0 && 65 <= s[0] <= 90 {
        lemma_letter_run(s.drop_first());
        assert forall|j: int| 0 <= j < letter_run(s) implies 65 <= #[trigger] s[j] <= 90 by {
            if j > 0 {
                assert(s[j] == s.drop_first()[j - 1]);
            }
        }
    }
}

/// Value of the decimal digits `s[from..to]`, or `None` beyond `limit`.
fn digits_in(s: &[u8], from: usize, to: usize, limit: u64) -> (r: Option<u64>)
    requires
        from <= to <= s@.len(),
        all_digits(s@.subrange(from as int, to as int)),
        limit <= 0x1_0000_0000,
    ensures
        r matches Some(v) ==> v == digits_value(s@.subrange(from as int, to as int)),
        r is None <==> digits_value(s@.subrange(from as int, to as int)) > limit,
{
    let ghost d = s@.subrange(from as int, to as int);
    let mut v: u64 = 0;
    let mut i = from;
    while i < to
        invariant
            from <= i <= to <= s@.len(),
            d == s@.subrange(from as int, to as int),
            all_digits(d),
            limit <= 0x1_0000_0000,
            v == digits_value(d.subrange(0, i - from)),
            v <= limit,
        decreases to - i,
    {
        assert(d.subrange(0, i - from + 1).drop_last() =~= d.subrange(0, i - from));
        assert(d[i - from] == s@[i as int]);
        let nv = v * 10 + (s[i] - 48u8) as u64;
        if nv > limit {
            proof {
                lemma_digits_value(d, i - from + 1);
            }
            return None;
        }
        v = nv;
        i = i + 1;
    }
    assert(d.subrange(0, i - from) =~= d);
    Some(v)
}

/// The cell a name such as `B12` denotes (see `cell_name_value`).
pub fn parse_cell_name(name: &str) -> (r: Option<CellReference>)
    ensures
        r == cell_name_value(name.spec_bytes()),
{
    cell_name_bytes(name.as_bytes())
}

/// The cell the bytes of a name denote (see `cell_name_value`).
pub fn cell_name_bytes(s: &[u8]) -> (r: Option<CellReference>)
    ensures
        r == cell_name_value(s@),
{
    proof {
        lemma_letter_run(s@);
    }
    let mut k: usize = 0;
    let mut col: u64 = 0;
    while k < s.len() && 65u8 <= s[k] && s[k] <= 90u8
        invariant
            k <= s@.len(),
            forall|j: int| 0 <= j < k ==> 65 <= #[trigger] s@[j] <= 90,
            col == column_number(s@.subrange(0, k as int)),
            col <= 0x8000_0000,
        decreases s@.len() - k,
    {
        assert(s@.subrange(0, k + 1).drop_last() =~= s@.subrange(0, k as int));
        let nc = col * 26 + (s[k] - 64u8) as u64;
        if nc > 0x8000_0000 {
            proof {
                lemma_letter_run(s@);
                let run = letter_run(s@) as int;
                assert(k < run) by {
                    if run <= k {
                        assert(65 <= s@[run] <= 90);
                    }
                }
                let p = s@.subrange(0, run);
                assert forall|j: int| 0 <= j < p.len() implies 65 <= #[trigger] p[j] <= 90 by {
                    assert(p[j] == s@[j]);
                }
                lemma_letters_value(p, k + 1);
                assert(p.subrange(0, k + 1) =~= s@.subrange(0, k + 1));
                assert(s@.subrange(0, k + 1).last() == s@[k as int]);
                assert(column_number(s@.subrange(0, k + 1)) == nc);
            }
            return None;
        }
        col = nc;
        k = k + 1;
    }
    proof {
        lemma_letter_run(s@);
        let run = letter_run(s@) as int;
        assert(k as int == run) by {
            if (k as int) < run {
                assert(65 <= s@[k as int] <= 90);
            }
            if (k as int) > run {
                assert(65 <= s@[run] <= 90);
            }
        }
    }
    if k == 0 || k >= s.len() {
        return None;
    }
    proof {
        let p = s@.subrange(0, k as int);
        assert forall|j: int| 0 <= j < p.len() implies 65 <= #[trigger] p[j] <= 90 by {
            assert(p[j] == s@[j]);
        }
        lemma_letters_nonneg(p);
    }
    let mut i = k;
    while i < s.len()
        invariant
            k <= i <= s@.len(),
            k as int == letter_run(s@),
            forall|j: int| k <= j < i ==> 48 <= #[trigger] s@[j] <= 57,
        decreases s@.len() - i,
    {
        if s[i] < 48u8 || s[i] > 57u8 {
            proof {
                let d = s@.subrange(k as int, s@.len() as int);
                assert(!(48 <= d[i - k] <= 57));
            }
            return None;
        }
        i = i + 1;
    }
    let ghost d = s@.subrange(k as int, s@.len() as int);
    assert(all_digits(d)) by {
        assert forall|j: int| 0 <= j < d.len() implies 48 <= #[trigger] d[j] <= 57 by {
            assert(d[j] == s@[k + j]);
        }
    }
    match digits_in(s, k, s.len(), 0x8000_0000) {
        None => None,
        Some(row) => {
            if row == 0 {
                assert(letter_run(s@) == k);
                assert(digits_value(s@.subrange(k as int, s@.len() as int)) == 0);
                None
            } else {
                Some(CellReference { row: (row - 1) as i32, column: (col - 1) as i32 })
            }
        },
    }
}


/// The integer a text such as `-42` denotes (see `int_text_value`).
pub fn string_to_int(num_str: &str) -> (r: Option<i32>)
    ensures
        r == int_text_value(num_str.spec_bytes()),
{
    let s = num_str.as_bytes();
    let n = s.len();
    let signed = n > 0 && (s[0] == 45u8 || s[0] == 43u8);
    let negative = signed && s[0] == 45u8;
    let start: usize = if signed { 1 } else { 0 };
    if start >= n {
        proof {
            if signed {
                assert(s@.drop_first().len() == 0);
            }
        }
        return None;
    }
    let mut i = start;
    while i < n
        invariant
            s@ == num_str.spec_bytes(),
            n == s@.len(),
            signed == (n > 0 && (s@[0] == 45 || s@[0] == 43)),
            start == (if signed { 1usize } else { 0usize }),
            start <= i <= n,
            forall|j: int| start <= j < i ==> 48 <= #[trigger] s@[j] <= 57,
        decreases n - i,
    {
        if s[i] < 48u8 || s[i] > 57u8 {
            proof {
                let d = if signed { s@.drop_first() } else { s@ };
                assert(d[i - start] == s@[i as int]);
            }
            return None;
        }
        i = i + 1;
    }
    let ghost d = if signed { s@.drop_first() } else { s@ };
    assert(d =~= s@.subrange(start as int, n as int));
    assert(all_digits(d)) by {
        assert forall|j: int| 0 <= j < d.len() implies 48 <= #[trigger] d[j] <= 57 by {
            assert(d[j] == s@[start + j]);
        }
    }
    let limit: u64 = if negative { 0x8000_0000 } else { 0x7FFF_FFFF };
    match digits_in(s, start, n, limit) {
        None => None,
        Some(v) => {
            if negative {
                Some((-(v as i64)) as i32)
            } else {
                Some(v as i32)
            }
        },
    }
}

/// The label of the one-based column number `n`, as bytes.
pub(crate) fn label_bytes(n: u32) -> (r: Vec<u8>)
    requires
        n >= 1,
    ensures
        r@ == column_label(n as int),
    decreases n,
{
    if n <= 26 {
        let mut v: Vec<u8> = Vec::new();
        v.push((n + 64) as u8);
        assert(v@ =~= seq![(n + 64) as u8]);
        v
    } else {
        let mut v = label_bytes((n - 1) / 26);
        v.push((((n - 1) % 26) + 65) as u8);
        v
    }
}

pub proof fn lemma_column_label(n: int)
    requires
        n >= 1,
    ensures
        column_number(column_label(n)) == n,
        column_label(n).len() >= 1,
        forall|j: int| 0 <= j < column_label(n).len() ==> 65 <= #[trigger] column_label(n)[j] <= 90,
    decreases n,
{
    if n > 26 {
        let m = (n - 1) / 26;
        lemma_column_label(m);
        let l = column_label(n);
        assert(l.drop_last() == column_label(m));
        assert(m * 26 + (n - 1) % 26 + 1 == n) by (nonlinear_arith)
            requires m == (n - 1) / 26;
        assert(0 <= (n - 1) % 26 < 26);
        assert(l.last() == (((n - 1) % 26) + 65) as u8);
        assert(l.last() - 64 == (n - 1) % 26 + 1);
        assert(column_number(l) == column_number(l.drop_last()) * 26 + (l.last() - 64));
        assert forall|j: int| 0 <= j < l.len() implies 65 <= #[trigger] l[j] <= 90 by {
            if j < l.len() - 1 {
                assert(l[j] == column_label(m)[j]);
            }
        }
    } else {
        let l = column_label(n);
        assert(l.drop_last() =~= Seq::<u8>::empty());
        assert(l.last() == (n + 64) as u8);
        assert(column_number(l) == column_number(l.drop_last()) * 26 + (l.last() - 64));
    }
}

/// Relies on `String`'s `FromIterator<char>`: the string of the given
/// characters, in order.
#[verifier::external_body]
pub(crate) fn string_from_chars(chars: Vec<char>) -> (r: String)
    ensures
        r@ == chars@,
{
    chars.into_iter().collect()
}

/// The label of the zero-based column `col`: `A` for 0, `Z` for 25, `AA`
/// for 26.
pub fn get_column_name(col: i32) -> (r: String)
    requires
        col >= 0,
    ensures
        r@ == column_label(col + 1).map_values(|b: u8| b as char),
        column_number(column_label(col + 1)) == col + 1,
{
    proof {
        lemma_column_label(col + 1);
    }
    let bytes = label_bytes((col as u32) + 1);
    let mut chars: Vec<char> = Vec::new();
    let mut i: usize = 0;
    while i < bytes.len()
        invariant
            i <= bytes@.len(),
            chars@ == bytes@.subrange(0, i as int).map_values(|b: u8| b as char),
        decreases bytes@.len() - i,
    {
        chars.push(bytes[i] as char);
        assert(chars@ =~= bytes@.subrange(0, i + 1).map_values(|b: u8| b as char));
        i = i + 1;
    }
    assert(bytes@.subrange(0, i as int) =~= bytes@);
    string_from_chars(chars)
}

} // verus!
