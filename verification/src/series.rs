//! Sums and averages over sequences of numbers.
//!
//! Totals are accumulated exactly in a wide integer, so a sum or an average
//! is undefined only when an element is undefined or the final result is
//! not representable, never because of an intermediate value.

use vstd::prelude::*;
use vstd::arithmetic::div_mod::{
    lemma_fundamental_div_mod,
    lemma_fundamental_div_mod_converse,
    lemma_mod_pos_bound,
};
use crate::fixed::{
    fixed_of,
    floor_sqrt,
    integer_sqrt,
    lemma_floor_sqrt_exists,
    lemma_quot_remainder,
    quot,
    undefined,
    Fixed,
    SCALE,
};

verus! {

/// Every element is defined.
pub open spec fn all_defined(s: Seq<Fixed>) -> bool {
    forall|i: int| 0 <= i < s.len() ==> (#[trigger] s[i]).defined()
}

/// Exact total, in billionths, of a sequence of defined numbers.
pub open spec fn total(s: Seq<Fixed>) -> int
    decreases s.len(),
{
    if s.len() == 0 {
        0
    } else {
        total(s.drop_last()) + s.last().val()
    }
}

/// Sum of a sequence; undefined when an element is.
pub open spec fn sum_spec(s: Seq<Fixed>) -> Fixed {
    if all_defined(s) {
        fixed_of(total(s))
    } else {
        undefined()
    }
}

/// Total of a sequence divided by `n`; undefined when an element is or
/// when `n` is zero.
pub open spec fn mean_spec(s: Seq<Fixed>, n: int) -> Fixed {
    if all_defined(s) && n != 0 {
        fixed_of(quot(total(s), n))
    } else {
        undefined()
    }
}

/// Exact total of the squared distances of the elements from `center`
/// billionths, in squares of billionths.
pub open spec fn squares_total(s: Seq<Fixed>, center: int) -> int
    decreases s.len(),
{
    if s.len() == 0 {
        0
    } else {
        squares_total(s.drop_last(), center) + (s.last().val() - center) * (s.last().val()
            - center)
    }
}

/// Population standard deviation: the square root of the mean squared
/// distance from the mean, rounded down. The squares and their total are
/// exact; only the root is narrowed. Undefined when an element is or when
/// there is none.
pub open spec fn std_dev_spec(s: Seq<Fixed>) -> Fixed {
    let mean = mean_spec(s, s.len() as int);
    if mean.defined() {
        fixed_of(floor_sqrt(squares_total(s, mean.val()) / (s.len() as int)))
    } else {
        undefined()
    }
}

/// First differences: each value minus the one before it.
pub open spec fn differences(s: Seq<Fixed>) -> Seq<Fixed> {
    if s.len() == 0 {
        s
    } else {
        Seq::new((s.len() - 1) as nat, |i: int| s[i + 1].sub_spec(s[i]))
    }
}

/// The value that exponential smoothing with factor `alpha` reaches at
/// the end of a non-empty series: the first value, then at each further
/// value `alpha * value + (1 - alpha) * previous`.
pub open spec fn smoothed(alpha: Fixed, s: Seq<Fixed>) -> Fixed
    decreases s.len(),
{
    if s.len() <= 1 {
        s[0]
    } else {
        alpha.mul_spec(s.last()).add_spec(
            fixed_of(SCALE as int).sub_spec(alpha).mul_spec(smoothed(alpha, s.drop_last())),
        )
    }
}

/// The lesser of two numbers; undefined when one of them is.
pub open spec fn lesser(a: Fixed, b: Fixed) -> Fixed {
    if !a.defined() || !b.defined() {
        undefined()
    } else if b.val() < a.val() {
        b
    } else {
        a
    }
}

/// The greater of two numbers; undefined when one of them is.
pub open spec fn greater(a: Fixed, b: Fixed) -> Fixed {
    if !a.defined() || !b.defined() {
        undefined()
    } else if b.val() > a.val() {
        b
    } else {
        a
    }
}

/// The least element of a sequence; undefined when an element is, or
/// when there is none.
pub open spec fn least(s: Seq<Fixed>) -> Fixed
    decreases s.len(),
{
    if s.len() == 0 {
        undefined()
    } else if s.len() == 1 {
        s[0]
    } else {
        lesser(least(s.drop_last()), s.last())
    }
}

/// The greatest element of a sequence; undefined when an element is, or
/// when there is none.
pub open spec fn greatest(s: Seq<Fixed>) -> Fixed
    decreases s.len(),
{
    if s.len() == 0 {
        undefined()
    } else if s.len() == 1 {
        s[0]
    } else {
        greater(greatest(s.drop_last()), s.last())
    }
}

/// The change from one value to the next as a fraction of the first; zero
/// when the first is zero.
pub open spec fn relative_change(from: Fixed, to: Fixed) -> Fixed {
    if from.is_zero_spec() {
        fixed_of(0)
    } else {
        to.sub_spec(from).div_spec(from)
    }
}

/// Bound on the magnitude of a total of `n` numbers.
pub open spec fn total_bound(n: int) -> int {
    n * 0x8000_0000_0000_0000
}

/// Exact total of `values[lo..hi]`, or `None` when an element is undefined.
pub(crate) fn wide_total(values: &Vec<Fixed>, lo: usize, hi: usize) -> (r: Option<i128>)
    requires
        lo <= hi <= values.len(),
    ensures
        r is Some <==> all_defined(values@.subrange(lo as int, hi as int)),
        r matches Some(t) ==> t == total(values@.subrange(lo as int, hi as int))
            && -total_bound(hi - lo) <= t <= total_bound(hi - lo),
{
    let mut acc: i128 = 0;
    let mut i: usize = lo;
    while i < hi
        invariant
            lo <= i <= hi <= values.len(),
            all_defined(values@.subrange(lo as int, i as int)),
            acc == total(values@.subrange(lo as int, i as int)),
            -total_bound(i - lo) <= acc <= total_bound(i - lo),
        decreases hi - i,
    {
        let ghost next = values@.subrange(lo as int, i + 1);
        proof {
            assert(next.drop_last() =~= values@.subrange(lo as int, i as int));
            assert(next.last() == values@[i as int]);
        }
        match values[i].nanos {
            Some(m) => {
                acc = acc + m as i128;
                proof {
                    assert forall|k: int| 0 <= k < next.len() implies (#[trigger] next[k]).defined() by {
                        if k < next.len() - 1 {
                            assert(values@.subrange(lo as int, i as int)[k].defined());
                        }
                    }
                }
            },
            None => {
                proof {
                    let whole = values@.subrange(lo as int, hi as int);
                    assert(!whole[i - lo].defined());
                }
                return None;
            },
        }
        i = i + 1;
    }
    Some(acc)
}

/// Whether every one of `values` is defined.
pub fn every_defined(values: &Vec<Fixed>) -> (r: bool)
    ensures
        r == all_defined(values@),
{
    assert(values@.subrange(0, values@.len() as int) =~= values@);
    wide_total(values, 0, values.len()).is_some()
}

/// Sum of `values[lo..hi]`.
pub fn sum_of_range(values: &Vec<Fixed>, lo: usize, hi: usize) -> (r: Fixed)
    requires
        lo <= hi <= values.len(),
    ensures
        r == sum_spec(values@.subrange(lo as int, hi as int)),
{
    match wide_total(values, lo, hi) {
        Some(t) => Fixed::from_wide(t),
        None => Fixed::undefined(),
    }
}

/// Total of `values[lo..hi]` divided by `n`.
pub fn mean_of_range(values: &Vec<Fixed>, lo: usize, hi: usize, n: usize) -> (r: Fixed)
    requires
        lo <= hi <= values.len(),
    ensures
        r == mean_spec(values@.subrange(lo as int, hi as int), n as int),
{
    match wide_total(values, lo, hi) {
        Some(t) => {
            if n == 0 {
                Fixed::undefined()
            } else {
                Fixed::from_wide(crate::fixed::wide_quot(t, n as i128))
            }
        },
        None => Fixed::undefined(),
    }
}

/// The greatest square of a difference of two numbers.
pub open spec fn square_limit() -> int {
    0xffff_ffff_ffff_ffffint * 0xffff_ffff_ffff_ffffint
}

/// Population standard deviation of `values[lo..hi]`.
pub fn std_dev_of_range(values: &Vec<Fixed>, lo: usize, hi: usize) -> (r: Fixed)
    requires
        lo <= hi <= values.len(),
    ensures
        r == std_dev_spec(values@.subrange(lo as int, hi as int)),
{
    let count: usize = hi - lo;
    let mean: i64 = match mean_of_range(values, lo, hi, count).nanos {
        Some(m) => m,
        None => { return Fixed::undefined(); },
    };
    let ghost window = values@.subrange(lo as int, hi as int);
    let n: u128 = count as u128;
    // the total of the squares is kept as n * whole + part
    let mut whole: u128 = 0;
    let mut part: u128 = 0;
    let mut i: usize = lo;
    assert(0xffff_ffff_ffff_ffffint * 0xffff_ffff_ffff_ffffint
        == 0xffff_ffff_ffff_fffe_0000_0000_0000_0001int) by (nonlinear_arith);
    while i < hi
        invariant
            lo <= i <= hi <= values.len(),
            n == hi - lo,
            n > 0,
            window == values@.subrange(lo as int, hi as int),
            all_defined(window),
            squares_total(values@.subrange(lo as int, i as int), mean as int) == n * whole + part,
            part < n,
            0 <= squares_total(values@.subrange(lo as int, i as int), mean as int) <= (i - lo)
                * square_limit(),
            square_limit() == 0xffff_ffff_ffff_fffe_0000_0000_0000_0001int,
        decreases hi - i,
    {
        let ghost before = squares_total(values@.subrange(lo as int, i as int), mean as int);
        proof {
            let next = values@.subrange(lo as int, i + 1);
            assert(next.drop_last() =~= values@.subrange(lo as int, i as int));
            assert(next.last() == values@[i as int]);
            assert(window[i - lo] == values@[i as int]);
        }
        let x: i64 = match values[i].nanos {
            Some(x) => x,
            None => { return Fixed::undefined(); },
        };
        let d: i128 = x as i128 - mean as i128;
        let size: u128 = if d < 0 {
            (-d) as u128
        } else {
            d as u128
        };
        assert(size * size == d * d && size * size <= square_limit()) by (nonlinear_arith)
            requires
                size == d || size == -d,
                0 <= size <= 0xffff_ffff_ffff_ffff,
                square_limit() == 0xffff_ffff_ffff_ffff * 0xffff_ffff_ffff_ffff,
        ;
        let square: u128 = size * size;
        let more: u128 = square / n;
        let rest: u128 = square % n;
        let carry: u128 = if part + rest >= n {
            1
        } else {
            0
        };
        proof {
            let after = before + square;
            lemma_fundamental_div_mod(square as int, n as int);
            lemma_mod_pos_bound(square as int, n as int);
            assert(after == n * (whole + more + carry) + (part + rest - carry * n))
                by (nonlinear_arith)
                requires
                    after == before + square,
                    before == n * whole + part,
                    square == n * more + rest,
            ;
            assert((i + 1 - lo) * square_limit() <= n * square_limit()) by (nonlinear_arith)
                requires
                    i + 1 - lo <= n,
                    square_limit() >= 0,
            ;
            assert(whole + more + carry <= square_limit()) by (nonlinear_arith)
                requires
                    after == n * (whole + more + carry) + (part + rest - carry * n),
                    part + rest - carry * n >= 0,
                    after <= n * square_limit(),
                    n > 0,
            ;
        }
        whole = whole + more + carry;
        part = part + rest - carry * n;
        i = i + 1;
    }
    proof {
        let sum = squares_total(window, mean as int);
        assert(sum == whole * n + part) by (nonlinear_arith)
            requires
                sum == n * whole + part,
        ;
        lemma_fundamental_div_mod_converse(sum, n as int, whole as int, part as int);
    }
    Fixed::from_wide(integer_sqrt(whole) as i128)
}

/// First differences of `data`.
pub(crate) fn first_differences(data: &Vec<Fixed>) -> (r: Vec<Fixed>)
    ensures
        r@ == differences(data@),
{
    let n: usize = data.len();
    let mut r: Vec<Fixed> = Vec::new();
    if n == 0 {
        assert(r@ =~= differences(data@));
        return r;
    }
    let mut i: usize = 0;
    while i < n - 1
        invariant
            n == data.len(),
            n > 0,
            i <= n - 1,
            r@.len() == i,
            forall|k: int| 0 <= k < i ==> r@[k] == data@[k + 1].sub_spec(data@[k]),
        decreases n - 1 - i,
    {
        r.push(data[i + 1].sub(data[i]));
        i = i + 1;
    }
    assert(r@ =~= differences(data@));
    r
}

/// A copy of `values[lo..hi]`.
pub(crate) fn copied_range(values: &Vec<Fixed>, lo: usize, hi: usize) -> (v: Vec<Fixed>)
    requires
        lo <= hi <= values.len(),
    ensures
        v@ == values@.subrange(lo as int, hi as int),
{
    let mut v: Vec<Fixed> = Vec::new();
    let mut i: usize = lo;
    while i < hi
        invariant
            lo <= i <= hi <= values.len(),
            v@.len() == i - lo,
            forall|k: int| 0 <= k < i - lo ==> v@[k] == values@[lo + k],
        decreases hi - i,
    {
        v.push(values[i]);
        i = i + 1;
    }
    assert(v@ =~= values@.subrange(lo as int, hi as int));
    v
}

/// A copy of `values`.
pub(crate) fn copied(values: &Vec<Fixed>) -> (v: Vec<Fixed>)
    ensures
        v@ == values@,
{
    let v = copied_range(values, 0, values.len());
    assert(values@.subrange(0, values@.len() as int) =~= values@);
    v
}

/// The change from one value to the next as a fraction of the first.
pub(crate) fn change_between(from: Fixed, to: Fixed) -> (r: Fixed)
    ensures
        r == relative_change(from, to),
{
    if from.is_zero() {
        Fixed::from_nanos(0)
    } else {
        to.sub(from).div(from)
    }
}

/// The total of defined numbers lies between the count times the least
/// and the count times the greatest representable number.
pub proof fn lemma_total_bounds(s: Seq<Fixed>)
    requires
        all_defined(s),
    ensures
        s.len() * i64::MIN <= total(s) <= s.len() * i64::MAX,
    decreases s.len(),
{
    if s.len() > 0 {
        let prev = s.drop_last();
        assert(all_defined(prev)) by {
            assert forall|i: int| 0 <= i < prev.len() implies (#[trigger] prev[i]).defined() by {
                assert(s[i].defined());
            }
        }
        lemma_total_bounds(prev);
        assert(s.last().defined());
    }
}

/// The mean of defined numbers over their own count is defined.
pub proof fn lemma_mean_defined(s: Seq<Fixed>)
    requires
        all_defined(s),
        s.len() > 0,
    ensures
        mean_spec(s, s.len() as int).defined(),
{
    lemma_total_bounds(s);
    let n = s.len() as int;
    let t = total(s);
    assert(i64::MIN <= quot(t, n) <= i64::MAX) by (nonlinear_arith)
        requires
            n > 0,
            n * i64::MIN <= t <= n * i64::MAX,
            quot(t, n) == if t >= 0 {
                t / n
            } else {
                -((-t) / n)
            },
    ;
}

/// The least and the greatest of `values[lo..hi]`.
pub fn extremes_of_range(values: &Vec<Fixed>, lo: usize, hi: usize) -> (r: (Fixed, Fixed))
    requires
        lo <= hi <= values.len(),
    ensures
        r.0 == least(values@.subrange(lo as int, hi as int)),
        r.1 == greatest(values@.subrange(lo as int, hi as int)),
{
    if lo == hi {
        return (Fixed::undefined(), Fixed::undefined());
    }
    let mut low = values[lo];
    let mut high = values[lo];
    let mut i: usize = lo + 1;
    assert(values@.subrange(lo as int, lo + 1).len() == 1);
    while i < hi
        invariant
            lo < i <= hi <= values.len(),
            low == least(values@.subrange(lo as int, i as int)),
            high == greatest(values@.subrange(lo as int, i as int)),
        decreases hi - i,
    {
        proof {
            let next = values@.subrange(lo as int, i + 1);
            assert(next.drop_last() =~= values@.subrange(lo as int, i as int));
            assert(next.last() == values@[i as int]);
        }
        let x = values[i];
        if !low.is_defined() || !x.is_defined() {
            low = Fixed::undefined();
        } else if x.lt(low) {
            low = x;
        }
        if !high.is_defined() || !x.is_defined() {
            high = Fixed::undefined();
        } else if high.lt(x) {
            high = x;
        }
        i = i + 1;
    }
    (low, high)
}

/// A total of squares is not negative.
pub proof fn lemma_squares_total_nonnegative(s: Seq<Fixed>, center: int)
    ensures
        squares_total(s, center) >= 0,
    decreases s.len(),
{
    if s.len() > 0 {
        lemma_squares_total_nonnegative(s.drop_last(), center);
        let d = s.last().val() - center;
        assert(d * d >= 0) by (nonlinear_arith);
    }
}

/// A standard deviation, where defined, is not negative.
pub proof fn lemma_std_dev_nonnegative(s: Seq<Fixed>)
    ensures
        std_dev_spec(s).defined() ==> std_dev_spec(s).val() >= 0,
{
    let mean = mean_spec(s, s.len() as int);
    if mean.defined() {
        lemma_squares_total_nonnegative(s, mean.val());
        let n = s.len() as int;
        let sum = squares_total(s, mean.val());
        assert(sum / n >= 0) by (nonlinear_arith)
            requires
                sum >= 0,
                n > 0,
        ;
        lemma_floor_sqrt_exists(sum / n);
    }
}

/// Every element is defined and at most `bound` in magnitude.
pub open spec fn within(s: Seq<Fixed>, bound: int) -> bool {
    forall|i: int| 0 <= i < s.len() ==> (#[trigger] s[i]).defined() && -bound <= s[i].val() <= bound
}

/// The total of elements within a bound is within the count times the
/// bound.
pub proof fn lemma_total_within(s: Seq<Fixed>, bound: int)
    requires
        within(s, bound),
    ensures
        all_defined(s),
        -(s.len() * bound) <= total(s) <= s.len() * bound,
    decreases s.len(),
{
    if s.len() > 0 {
        let prev = s.drop_last();
        assert(within(prev, bound)) by {
            assert forall|i: int| 0 <= i < prev.len() implies (#[trigger] prev[i]).defined()
                && -bound <= prev[i].val() <= bound by {
                assert(s[i].defined());
            }
        }
        lemma_total_within(prev, bound);
        assert(s.last().defined());
        assert(s.len() * bound == prev.len() * bound + bound) by (nonlinear_arith)
            requires
                s.len() == prev.len() + 1,
        ;
    }
    assert forall|i: int| 0 <= i < s.len() implies (#[trigger] s[i]).defined() by {}
}

/// A quotient of a total within the count times a bound is within the
/// bound.
pub proof fn lemma_quot_within(t: int, n: int, bound: int)
    requires
        n > 0,
        -(n * bound) <= t <= n * bound,
    ensures
        -bound <= quot(t, n) <= bound,
{
    lemma_quot_remainder(t, n);
    let q = quot(t, n);
    assert(-bound <= q <= bound) by (nonlinear_arith)
        requires
            n > 0,
            -(n * bound) <= t <= n * bound,
            -n < t - n * q < n,
            t >= 0 ==> t - n * q >= 0,
            t <= 0 ==> t - n * q <= 0,
    ;
}

/// The mean of elements within a representable bound is within it.
pub proof fn lemma_mean_within(s: Seq<Fixed>, bound: int)
    requires
        within(s, bound),
        s.len() > 0,
        bound <= i64::MAX,
    ensures
        mean_spec(s, s.len() as int).defined(),
        -bound <= mean_spec(s, s.len() as int).val() <= bound,
{
    lemma_total_within(s, bound);
    lemma_quot_within(total(s), s.len() as int, bound);
    assert(s[0].defined());
}

/// The squared distances of elements within a bound from a center within
/// the bound total at most the count times the square of twice the bound.
pub proof fn lemma_squares_total_within(s: Seq<Fixed>, center: int, bound: int)
    requires
        within(s, bound),
        -bound <= center <= bound,
    ensures
        0 <= squares_total(s, center) <= s.len() * (4 * bound * bound),
    decreases s.len(),
{
    if s.len() > 0 {
        let prev = s.drop_last();
        assert(within(prev, bound)) by {
            assert forall|i: int| 0 <= i < prev.len() implies (#[trigger] prev[i]).defined()
                && -bound <= prev[i].val() <= bound by {
                assert(s[i].defined());
            }
        }
        lemma_squares_total_within(prev, center, bound);
        assert(s.last().defined());
        let d = s.last().val() - center;
        assert(0 <= d * d <= 4 * bound * bound) by (nonlinear_arith)
            requires
                -(2 * bound) <= d <= 2 * bound,
        ;
        assert(s.len() * (4 * bound * bound) == prev.len() * (4 * bound * bound) + 4 * bound
            * bound) by (nonlinear_arith)
            requires
                s.len() == prev.len() + 1,
        ;
    }
}

/// The standard deviation of elements within a bound is defined and at
/// most twice the bound.
pub proof fn lemma_std_dev_within(s: Seq<Fixed>, bound: int)
    requires
        within(s, bound),
        s.len() > 0,
        0 <= bound,
        2 * bound <= i64::MAX,
    ensures
        std_dev_spec(s).defined(),
        0 <= std_dev_spec(s).val() <= 2 * bound,
{
    lemma_mean_within(s, bound);
    let mean = mean_spec(s, s.len() as int).val();
    lemma_squares_total_within(s, mean, bound);
    let n = s.len() as int;
    let sum = squares_total(s, mean);
    let limit = 4 * bound * bound;
    assert(0 <= sum / n <= limit) by (nonlinear_arith)
        requires
            0 <= sum <= n * limit,
            n > 0,
    ;
    lemma_floor_sqrt_exists(sum / n);
    let root = floor_sqrt(sum / n);
    assert(root <= 2 * bound) by (nonlinear_arith)
        requires
            0 <= root,
            root * root <= sum / n,
            sum / n <= limit,
            limit == 4 * bound * bound,
            0 <= bound,
    ;
}

} // verus!
