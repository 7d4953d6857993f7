use vstd::prelude::*;

verus! {

/// Sum with two's-complement wrap-around on overflow.
pub open spec fn sum_wrapping(v: Seq<i32>) -> i32
    decreases v.len(),
{
    if v.len() == 0 {
        0
    } else {
        sum_wrapping(v.drop_last()).wrapping_add(v.last())
    }
}

/// The exact sum.
pub open spec fn sum_int(v: Seq<i32>) -> int
    decreases v.len(),
{
    if v.len() == 0 {
        0
    } else {
        sum_int(v.drop_last()) + v.last()
    }
}

/// The exact sum of squares.
pub open spec fn sum_squares(v: Seq<i32>) -> int
    decreases v.len(),
{
    if v.len() == 0 {
        0
    } else {
        sum_squares(v.drop_last()) + v.last() * v.last()
    }
}

/// The largest value; 0 for no values.
pub open spec fn max_of(v: Seq<i32>) -> i32
    decreases v.len(),
{
    if v.len() == 0 {
        0
    } else if v.len() == 1 {
        v[0]
    } else if v.last() > max_of(v.drop_last()) {
        v.last()
    } else {
        max_of(v.drop_last())
    }
}

/// The smallest value; 0 for no values.
pub open spec fn min_of(v: Seq<i32>) -> i32
    decreases v.len(),
{
    if v.len() == 0 {
        0
    } else if v.len() == 1 {
        v[0]
    } else if v.last() < min_of(v.drop_last()) {
        v.last()
    } else {
        min_of(v.drop_last())
    }
}

/// `a / n` rounded toward zero, for `n > 0`.
pub open spec fn div_toward_zero(a: int, n: int) -> int {
    if a >= 0 {
        a / n
    } else {
        -((-a) / n)
    }
}

/// The mean rounded toward zero; 0 for no values.
pub open spec fn avg_of(v: Seq<i32>) -> i32 {
    if v.len() == 0 {
        0
    } else {
        div_toward_zero(sum_int(v), v.len() as int) as i32
    }
}

/// `k` is the integer square root of `t`.
pub open spec fn is_isqrt(t: int, k: int) -> bool {
    0 <= k && k * k <= t && t < (k + 1) * (k + 1)
}

/// `n * n` times the population variance: `n * Σx² - (Σx)²`.
pub open spec fn spread(v: Seq<i32>) -> int {
    v.len() * sum_squares(v) - sum_int(v) * sum_int(v)
}

/// Number of values beyond which a standard deviation is not computed.
pub const STDEV_MAX_LEN: u64 = 0x8000_0000;

/// The population standard deviation rounded to the nearest integer (half
/// away from zero), saturated to `i32::MAX`. With `k` the integer square
/// root of `4 * n² * variance`, `sqrt(variance) + 1/2` rounds down to
/// `(k + n) / (2n)`. Fewer than two values, or more than `STDEV_MAX_LEN`,
/// give 0.
pub open spec fn stdev_of(v: Seq<i32>) -> i32 {
    let n = v.len() as int;
    if n <= 1 || n > STDEV_MAX_LEN as int || spread(v) < 0 {
        0
    } else {
        let k = choose|k: int| #[trigger] is_isqrt(4 * spread(v), k);
        let q = (k + n) / (2 * n);
        if q > i32::MAX as int {
            i32::MAX
        } else {
            q as i32
        }
    }
}

proof fn lemma_isqrt_unique(t: int, a: int, b: int)
    requires
        is_isqrt(t, a),
        is_isqrt(t, b),
    ensures
        a == b,
{
    if a < b {
        assert((a + 1) * (a + 1) <= b * b) by (nonlinear_arith)
            requires 0 <= a, a + 1 <= b;
    } else if b < a {
        assert((b + 1) * (b + 1) <= a * a) by (nonlinear_arith)
            requires 0 <= b, b + 1 <= a;
    }
}

/// Integer square root by bisection.
fn isqrt(t: u128) -> (k: u128)
    ensures
        is_isqrt(t as int, k as int),
{
    let mut lo: u128 = 0;
    let mut hi: u128 = 0xFFFF_FFFF_FFFF_FFFF;
    assert(t < (hi as int + 1) * (hi as int + 1)) by (nonlinear_arith)
        requires hi == 0xFFFF_FFFF_FFFF_FFFFu128, t <= u128::MAX;
    while lo < hi
        invariant
            lo <= hi <= 0xFFFF_FFFF_FFFF_FFFFu128,
            lo * lo <= t,
            t < (hi as int + 1) * (hi as int + 1),
        decreases hi - lo,
    {
        let mid: u128 = lo + (hi - lo + 1) / 2;
        assert(mid * mid <= 0xFFFF_FFFF_FFFF_FFFFu128 * 0xFFFF_FFFF_FFFF_FFFFu128) by (nonlinear_arith)
            requires mid <= 0xFFFF_FFFF_FFFF_FFFFu128;
        if mid * mid <= t {
            lo = mid;
        } else {
            hi = mid - 1;
        }
    }
    lo
}


/// Sum of `values`, wrapping on overflow.
pub fn sum_values(values: &Vec<i32>) -> (r: i32)
    ensures
        r == sum_wrapping(values@),
{
    let mut acc: i32 = 0;
    let mut i: usize = 0;
    while i < values.len()
        invariant
            i <= values@.len(),
            acc == sum_wrapping(values@.subrange(0, i as int)),
        decreases values@.len() - i,
    {
        assert(values@.subrange(0, i + 1).drop_last() =~= values@.subrange(0, i as int));
        acc = acc.wrapping_add(values[i]);
        i = i + 1;
    }
    assert(values@.subrange(0, i as int) =~= values@);
    acc
}

/// Largest of `values`, 0 when there is none.
pub fn max_value(values: &Vec<i32>) -> (r: i32)
    ensures
        r == max_of(values@),
{
    if values.len() == 0 {
        return 0;
    }
    let mut m: i32 = values[0];
    let mut i: usize = 1;
    assert(values@.subrange(0, 1) =~= seq![values@[0]]);
    while i < values.len()
        invariant
            1 <= i <= values@.len(),
            m == max_of(values@.subrange(0, i as int)),
        decreases values@.len() - i,
    {
        assert(values@.subrange(0, i + 1).drop_last() =~= values@.subrange(0, i as int));
        if values[i] > m {
            m = values[i];
        }
        i = i + 1;
    }
    assert(values@.subrange(0, i as int) =~= values@);
    m
}

/// Smallest of `values`, 0 when there is none.
pub fn min_value(values: &Vec<i32>) -> (r: i32)
    ensures
        r == min_of(values@),
{
    if values.len() == 0 {
        return 0;
    }
    let mut m: i32 = values[0];
    let mut i: usize = 1;
    assert(values@.subrange(0, 1) =~= seq![values@[0]]);
    while i < values.len()
        invariant
            1 <= i <= values@.len(),
            m == min_of(values@.subrange(0, i as int)),
        decreases values@.len() - i,
    {
        assert(values@.subrange(0, i + 1).drop_last() =~= values@.subrange(0, i as int));
        if values[i] < m {
            m = values[i];
        }
        i = i + 1;
    }
    assert(values@.subrange(0, i as int) =~= values@);
    m
}

/// Exact sum and sum of squares of `values`, which hold at most `STDEV_MAX_LEN` items.
fn sums(values: &Vec<i32>) -> (r: (i128, i128))
    requires
        values@.len() <= STDEV_MAX_LEN,
    ensures
        r.0 == sum_int(values@),
        r.1 == sum_squares(values@),
        -(values@.len() as int) * 0x8000_0000 <= r.0 <= (values@.len() as int) * 0x8000_0000,
        0 <= r.1 <= (values@.len() as int) * 0x4000_0000_0000_0000,
{
    let mut s: i128 = 0;
    let mut q: i128 = 0;
    let mut i: usize = 0;
    while i < values.len()
        invariant
            i <= values@.len() <= STDEV_MAX_LEN,
            s == sum_int(values@.subrange(0, i as int)),
            q == sum_squares(values@.subrange(0, i as int)),
            -(i as int) * 0x8000_0000 <= s <= (i as int) * 0x8000_0000,
            0 <= q <= (i as int) * 0x4000_0000_0000_0000,
        decreases values@.len() - i,
    {
        assert(values@.subrange(0, i + 1).drop_last() =~= values@.subrange(0, i as int));
        let x: i32 = values[i];
        assert(0 <= (x as int) * (x as int) <= 0x4000_0000_0000_0000) by (nonlinear_arith)
            requires i32::MIN <= x <= i32::MAX;
        s = s + x as i128;
        q = q + (x as i128) * (x as i128);
        i = i + 1;
    }
    assert(values@.subrange(0, i as int) =~= values@);
    (s, q)
}

/// Mean of `values` rounded toward zero, 0 when there is none.
pub fn avg_value(values: &Vec<i32>) -> (r: i32)
    ensures
        r == avg_of(values@),
{
    let n = values.len();
    if n == 0 {
        return 0;
    }
    let mut s: i128 = 0;
    let mut i: usize = 0;
    while i < n
        invariant
            n == values@.len(),
            i <= n,
            s == sum_int(values@.subrange(0, i as int)),
            -(i as int) * 0x8000_0000 <= s <= (i as int) * 0x7FFF_FFFF,
        decreases n - i,
    {
        assert(values@.subrange(0, i + 1).drop_last() =~= values@.subrange(0, i as int));
        s = s + values[i] as i128;
        i = i + 1;
    }
    assert(values@.subrange(0, i as int) =~= values@);
    let nn = n as i128;
    let r: i128;
    if s >= 0 {
        r = s / nn;
        assert(0 <= r <= 0x7FFF_FFFF) by (nonlinear_arith)
            requires nn >= 1, 0 <= s <= nn * 0x7FFF_FFFF, r == s / nn;
    } else {
        let ns: i128 = -s;
        let m: i128 = ns / nn;
        assert(0 <= m <= 0x8000_0000) by (nonlinear_arith)
            requires nn >= 1, 0 < ns <= nn * 0x8000_0000, m == ns / nn;
        r = -m;
    }
    r as i32
}

/// Population standard deviation of `values`, rounded (see `stdev_of`).
pub fn stdev(values: &Vec<i32>) -> (r: i32)
    ensures
        r == stdev_of(values@),
{
    let n = values.len();
    if n <= 1 || n as u64 > STDEV_MAX_LEN {
        return 0;
    }
    let (s, q) = sums(values);
    let nn = n as i128;
    assert(nn * q <= 0x1000_0000_0000_0000_0000_0000_0000_0000) by (nonlinear_arith)
        requires 0 <= q <= nn * 0x4000_0000_0000_0000, 0 <= nn <= 0x8000_0000;
    assert(s * s <= 0x4000_0000_0000_0000_0000_0000_0000_0000) by (nonlinear_arith)
        requires -nn * 0x8000_0000 <= s <= nn * 0x8000_0000, 0 <= nn <= 0x8000_0000;
    assert(0 <= s * s) by (nonlinear_arith);
    assert(0 <= nn * q) by (nonlinear_arith) requires 0 <= q, 0 <= nn;
    let sp: i128 = nn * q - s * s;
    if sp < 0 {
        return 0;
    }
    let t: u128 = (sp as u128) * 4;
    let k = isqrt(t);
    proof {
        let kc = choose|k: int| #[trigger] is_isqrt(4 * spread(values@), k);
        assert(is_isqrt(4 * spread(values@), k as int));
        lemma_isqrt_unique(4 * spread(values@), k as int, kc);
    }
    assert(k <= 0xFFFF_FFFF_FFFF_FFFFu128) by (nonlinear_arith)
        requires k * k <= t, t <= u128::MAX;
    let qv: u128 = (k + n as u128) / (2 * n as u128);
    if qv > i32::MAX as u128 {
        i32::MAX
    } else {
        qv as i32
    }
}

} // verus!
