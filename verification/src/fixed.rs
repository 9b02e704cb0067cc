//! Fixed-point numbers with an explicit *undefined* value.
//!
//! A [`Fixed`] holds a signed count of billionths, or nothing: numbers of
//! magnitude up to about 9.2 billion, in steps of one billionth. Arithmetic
//! is exact where the result is representable; quotients are rounded
//! toward zero. An operation whose result is not representable, or one of
//! whose operands is undefined, yields the undefined value.

use vstd::prelude::*;
use vstd::arithmetic::div_mod::{
    lemma_div_pos_is_pos,
    lemma_fundamental_div_mod,
    lemma_fundamental_div_mod_converse,
    lemma_mod_pos_bound,
};

verus! {

/// Number of representable steps per unit.
pub const SCALE: i64 = 1_000_000_000;

/// A fixed-point number with nine decimal places, or the undefined value.
#[derive(Clone, Copy, Debug, PartialEq, Eq)]
pub struct Fixed {
    /// The value in billionths; `None` when undefined.
    pub nanos: Option<i64>,
}

impl View for Fixed {
    type V = Option<int>;

    open spec fn view(&self) -> Option<int> {
        match self.nanos {
            Some(m) => Some(m as int),
            None => None,
        }
    }
}

/// Whether `x` billionths are representable.
pub open spec fn fits(x: int) -> bool {
    i64::MIN <= x <= i64::MAX
}

/// The undefined value.
pub open spec fn undefined() -> Fixed {
    Fixed { nanos: None }
}

/// The number of `x` billionths, undefined when not representable.
pub open spec fn fixed_of(x: int) -> Fixed {
    if fits(x) {
        Fixed { nanos: Some(x as i64) }
    } else {
        undefined()
    }
}

/// Quotient of `n` by `d` rounded toward zero (`d` nonzero).
pub open spec fn quot(n: int, d: int) -> int {
    if n >= 0 {
        if d > 0 {
            n / d
        } else {
            -(n / (-d))
        }
    } else {
        if d > 0 {
            -((-n) / d)
        } else {
            (-n) / (-d)
        }
    }
}

/// Quotient of `n` by `d` rounded to the nearest integer, halves away from
/// zero (`d` nonzero).
pub open spec fn nearest(n: int, d: int) -> int {
    let q = quot(n, d);
    let rest = n - d * q;
    if 2 * rest >= d && d > 0 || 2 * rest <= d && d < 0 {
        q + 1
    } else if 2 * rest <= -d && d > 0 || 2 * rest >= -d && d < 0 {
        q - 1
    } else {
        q
    }
}

/// `r` is the integer square root of `n`.
pub open spec fn is_floor_sqrt(n: int, r: int) -> bool {
    0 <= r && r * r <= n < (r + 1) * (r + 1)
}

/// The integer square root of `n` (`n` non-negative).
pub open spec fn floor_sqrt(n: int) -> int {
    choose|r: int| is_floor_sqrt(n, r)
}

impl Fixed {
    /// Whether the value is defined.
    pub open spec fn defined(self) -> bool {
        self.nanos is Some
    }

    /// The value in billionths (meaningful only when defined).
    pub open spec fn val(self) -> int {
        self.nanos.unwrap() as int
    }

    /// Sum; undefined when not representable.
    pub open spec fn add_spec(self, other: Fixed) -> Fixed {
        if self.defined() && other.defined() {
            fixed_of(self.val() + other.val())
        } else {
            undefined()
        }
    }

    /// Difference; undefined when not representable.
    pub open spec fn sub_spec(self, other: Fixed) -> Fixed {
        if self.defined() && other.defined() {
            fixed_of(self.val() - other.val())
        } else {
            undefined()
        }
    }

    /// Product, rounded toward zero; undefined when not representable.
    pub open spec fn mul_spec(self, other: Fixed) -> Fixed {
        if self.defined() && other.defined() {
            fixed_of(quot(self.val() * other.val(), SCALE as int))
        } else {
            undefined()
        }
    }

    /// Quotient, rounded toward zero; undefined when the divisor is zero
    /// or the quotient is not representable.
    pub open spec fn div_spec(self, other: Fixed) -> Fixed {
        if self.defined() && other.defined() && other.val() != 0 {
            fixed_of(quot(self.val() * SCALE, other.val()))
        } else {
            undefined()
        }
    }

    /// Quotient by a count, rounded toward zero; undefined when the count
    /// is zero.
    pub open spec fn div_count_spec(self, n: int) -> Fixed {
        if self.defined() && n != 0 {
            fixed_of(quot(self.val(), n))
        } else {
            undefined()
        }
    }

    /// Square root, rounded down; undefined for negative values.
    pub open spec fn sqrt_spec(self) -> Fixed {
        if self.defined() && self.val() >= 0 {
            fixed_of(floor_sqrt(self.val() * SCALE))
        } else {
            undefined()
        }
    }

    /// Absolute value; undefined when not representable.
    pub open spec fn abs_spec(self) -> Fixed {
        if self.defined() {
            fixed_of(if self.val() < 0 { -self.val() } else { self.val() })
        } else {
            undefined()
        }
    }

    /// Less than; false as soon as one side is undefined.
    pub open spec fn lt_spec(self, other: Fixed) -> bool {
        self.defined() && other.defined() && self.val() < other.val()
    }

    /// At most; false as soon as one side is undefined.
    pub open spec fn le_spec(self, other: Fixed) -> bool {
        self.defined() && other.defined() && self.val() <= other.val()
    }

    /// Defined and zero.
    pub open spec fn is_zero_spec(self) -> bool {
        self.defined() && self.val() == 0
    }

    /// The number of `m` billionths.
    pub fn from_nanos(m: i64) -> (r: Fixed)
        ensures
            r == fixed_of(m as int),
            r.defined(),
            r.val() == m,
    {
        Fixed { nanos: Some(m) }
    }

    /// The undefined value.
    pub fn undefined() -> (r: Fixed)
        ensures
            r == undefined(),
    {
        Fixed { nanos: None }
    }

    /// The value in billionths, if defined.
    pub fn nanos(&self) -> (r: Option<i64>)
        ensures
            r == self.nanos,
    {
        self.nanos
    }

    /// Whether the value is defined.
    pub fn is_defined(&self) -> (r: bool)
        ensures
            r == self.defined(),
    {
        self.nanos.is_some()
    }

    /// Narrows a wide count of billionths.
    pub(crate) fn from_wide(x: i128) -> (r: Fixed)
        ensures
            r == fixed_of(x as int),
    {
        if x < -0x8000_0000_0000_0000 || x > 0x7fff_ffff_ffff_ffff {
            Fixed { nanos: None }
        } else {
            Fixed { nanos: Some(x as i64) }
        }
    }

    /// Sum; undefined when not representable.
    pub fn add(self, other: Fixed) -> (r: Fixed)
        ensures
            r == self.add_spec(other),
    {
        match (self.nanos, other.nanos) {
            (Some(a), Some(b)) => Fixed::from_wide(a as i128 + b as i128),
            _ => Fixed { nanos: None },
        }
    }

    /// Difference; undefined when not representable.
    pub fn sub(self, other: Fixed) -> (r: Fixed)
        ensures
            r == self.sub_spec(other),
    {
        match (self.nanos, other.nanos) {
            (Some(a), Some(b)) => Fixed::from_wide(a as i128 - b as i128),
            _ => Fixed { nanos: None },
        }
    }

    /// Product, rounded toward zero; undefined when not representable.
    pub fn mul(self, other: Fixed) -> (r: Fixed)
        ensures
            r == self.mul_spec(other),
    {
        match (self.nanos, other.nanos) {
            (Some(a), Some(b)) => {
                let p: i128 = wide_product(a, b);
                Fixed::from_wide(p / 1_000_000_000)
            },
            _ => Fixed { nanos: None },
        }
    }

    /// Quotient, rounded toward zero; undefined when the divisor is zero
    /// or the quotient is not representable.
    pub fn div(self, other: Fixed) -> (r: Fixed)
        ensures
            r == self.div_spec(other),
    {
        match (self.nanos, other.nanos) {
            (Some(a), Some(b)) => {
                if b == 0 {
                    Fixed { nanos: None }
                } else {
                    let n: i128 = a as i128 * 1_000_000_000;
                    Fixed::from_wide(wide_quot(n, b as i128))
                }
            },
            _ => Fixed { nanos: None },
        }
    }

    /// Quotient by a count, rounded toward zero; undefined when the count
    /// is zero.
    pub fn div_count(self, n: usize) -> (r: Fixed)
        ensures
            r == self.div_count_spec(n as int),
    {
        match self.nanos {
            Some(a) => {
                if n == 0 {
                    Fixed { nanos: None }
                } else {
                    Fixed::from_wide(wide_quot(a as i128, n as i128))
                }
            },
            None => Fixed { nanos: None },
        }
    }

    /// Square root, rounded down; undefined for negative values.
    pub fn sqrt(self) -> (r: Fixed)
        ensures
            r == self.sqrt_spec(),
    {
        match self.nanos {
            Some(a) => {
                if a < 0 {
                    Fixed { nanos: None }
                } else {
                    let root: u128 = integer_sqrt(a as u128 * 1_000_000_000);
                    Fixed::from_wide(root as i128)
                }
            },
            None => Fixed { nanos: None },
        }
    }

    /// Absolute value.
    pub fn abs(self) -> (r: Fixed)
        ensures
            r == self.abs_spec(),
    {
        match self.nanos {
            Some(a) => {
                if a < 0 {
                    Fixed::from_wide(-(a as i128))
                } else {
                    Fixed { nanos: Some(a) }
                }
            },
            None => Fixed { nanos: None },
        }
    }

    /// Less than; false as soon as one side is undefined.
    pub fn lt(self, other: Fixed) -> (r: bool)
        ensures
            r == self.lt_spec(other),
    {
        match (self.nanos, other.nanos) {
            (Some(a), Some(b)) => a < b,
            _ => false,
        }
    }

    /// At most; false as soon as one side is undefined.
    pub fn le(self, other: Fixed) -> (r: bool)
        ensures
            r == self.le_spec(other),
    {
        match (self.nanos, other.nanos) {
            (Some(a), Some(b)) => a <= b,
            _ => false,
        }
    }

    /// Defined and zero.
    pub fn is_zero(self) -> (r: bool)
        ensures
            r == self.is_zero_spec(),
    {
        match self.nanos {
            Some(a) => a == 0,
            None => false,
        }
    }

    /// The whole number `n`; undefined when not representable.
    pub fn from_int(n: i64) -> (r: Fixed)
        ensures
            r == fixed_of(n * SCALE),
    {
        Fixed::from_wide(n as i128 * 1_000_000_000)
    }

    /// The count `n` as a number; undefined when not representable.
    pub fn from_count(n: usize) -> (r: Fixed)
        ensures
            r == fixed_of(n * SCALE),
    {
        Fixed::from_wide(n as i128 * 1_000_000_000)
    }
}

/// The product of two 64-bit numbers, which always fits 128 bits.
pub(crate) fn wide_product(a: i64, b: i64) -> (p: i128)
    ensures
        p == a * b,
        -0x4000_0000_0000_0000_0000_0000_0000_0000 <= p <= 0x4000_0000_0000_0000_0000_0000_0000_0000,
{
    assert(-0x4000_0000_0000_0000_0000_0000_0000_0000 <= a * b
        <= 0x4000_0000_0000_0000_0000_0000_0000_0000) by (nonlinear_arith)
        requires
            -0x8000_0000_0000_0000 <= a <= 0x7fff_ffff_ffff_ffff,
            -0x8000_0000_0000_0000 <= b <= 0x7fff_ffff_ffff_ffff,
    ;
    (a as i128) * (b as i128)
}

/// Quotient rounded toward zero.
pub(crate) fn wide_quot(n: i128, d: i128) -> (q: i128)
    requires
        d != 0,
        n > i128::MIN,
        d > i128::MIN,
    ensures
        q == quot(n as int, d as int),
{
    let un: u128 = if n < 0 { (-n) as u128 } else { n as u128 };
    let ud: u128 = if d < 0 { (-d) as u128 } else { d as u128 };
    let uq: u128 = un / ud;
    assert(uq <= un) by (nonlinear_arith)
        requires
            ud >= 1,
            uq == un / ud,
    ;
    if (n < 0) == (d < 0) {
        uq as i128
    } else {
        -(uq as i128)
    }
}

/// The greatest magnitude of a total of products that is kept exactly: ten
/// to the 37th in squares of billionths, which is ten to the 19th in
/// squares of units.
pub const WIDE: i128 = 10_000_000_000_000_000_000_000_000_000_000_000_000;

/// The magnitude of an integer.
pub open spec fn magnitude(v: int) -> int {
    if v < 0 {
        -v
    } else {
        v
    }
}

/// Whether a total is within the range that is kept exactly.
pub open spec fn wide(t: int) -> bool {
    -WIDE <= t <= WIDE
}

/// The power of ten that the long division has reached when `left` is
/// still to come.
pub open spec fn reached(left: int) -> int {
    if left == 1_000_000_000 {
        1
    } else if left == 100_000_000 {
        10
    } else if left == 10_000_000 {
        100
    } else if left == 1_000_000 {
        1_000
    } else if left == 100_000 {
        10_000
    } else if left == 10_000 {
        100_000
    } else if left == 1_000 {
        1_000_000
    } else if left == 100 {
        10_000_000
    } else if left == 10 {
        100_000_000
    } else {
        1_000_000_000
    }
}

/// The quotient of `n` units by `d`, rounded toward zero, as a number:
/// the ratio of two exact totals.
pub(crate) fn scaled_quot(n: i128, d: i128) -> (r: Fixed)
    requires
        wide(n as int),
        0 < d <= WIDE,
    ensures
        r == fixed_of(quot(n * SCALE, d as int)),
{
    let a: i128 = if n < 0 {
        -n
    } else {
        n
    };
    let mut q: i128 = a / d;
    let mut rest: i128 = a % d;
    let mut left: i64 = 1_000_000_000;
    proof {
        lemma_fundamental_div_mod(a as int, d as int);
        lemma_mod_pos_bound(a as int, d as int);
        lemma_div_pos_is_pos(a as int, d as int);
        assert(a * 1 == q * d + rest) by (nonlinear_arith)
            requires
                a == d * q + rest,
        ;
    }
    while left > 1
        invariant
            left == 1_000_000_000 || left == 100_000_000 || left == 10_000_000 || left
                == 1_000_000 || left == 100_000 || left == 10_000 || left == 1_000 || left == 100
                || left == 10 || left == 1,
            0 < d <= WIDE,
            0 <= a,
            a == n || a == -n,
            0 <= rest < d,
            0 <= q,
            a * (reached(left as int)) == q * d + rest,
        decreases left,
    {
        if q > 0x8000_0000_0000_0000 {
            proof {
                let m = reached(left as int);
                assert(a * SCALE >= q * d) by (nonlinear_arith)
                    requires
                        a * m == q * d + rest,
                        rest >= 0,
                        a >= 0,
                        1 <= m <= SCALE,
                ;
                lemma_scaled_quot_large(n as int, a as int, d as int, q as int);
            }
            return Fixed { nanos: None };
        }
        let ghost m = reached(left as int);
        let tenfold: i128 = rest * 10;
        let digit: i128 = tenfold / d;
        let after: i128 = tenfold % d;
        proof {
            lemma_fundamental_div_mod(tenfold as int, d as int);
            lemma_mod_pos_bound(tenfold as int, d as int);
            lemma_div_pos_is_pos(tenfold as int, d as int);
            assert(digit <= 9) by (nonlinear_arith)
                requires
                    tenfold == d * digit + after,
                    after >= 0,
                    tenfold < 10 * d,
                    d > 0,
            ;
            assert(a * (m * 10) == (q * 10 + digit) * d + after) by (nonlinear_arith)
                requires
                    a * m == q * d + rest,
                    rest * 10 == d * digit + after,
            ;
        }
        q = q * 10 + digit;
        rest = after;
        left = left / 10;
    }
    proof {
        assert(a * SCALE == q * d + rest);
        lemma_fundamental_div_mod_converse(a * SCALE, d as int, q as int, rest as int);
        if n < 0 {
            assert(-(n * SCALE) == a * SCALE) by (nonlinear_arith)
                requires
                    a == -n,
            ;
        }
    }
    if q > 0x8000_0000_0000_0000 {
        return Fixed { nanos: None };
    }
    if n < 0 {
        Fixed::from_wide(-q)
    } else {
        Fixed::from_wide(q)
    }
}

/// A quotient whose magnitude is known to be beyond the representable
/// range is undefined.
proof fn lemma_scaled_quot_large(n: int, a: int, d: int, q: int)
    requires
        a == n || a == -n,
        0 <= a,
        0 < d,
        q > 0x8000_0000_0000_0000,
        a * SCALE >= q * d,
    ensures
        !fixed_of(quot(n * SCALE, d)).defined(),
{
    let x = a * SCALE;
    lemma_fundamental_div_mod(x, d);
    lemma_mod_pos_bound(x, d);
    assert(x / d >= q) by (nonlinear_arith)
        requires
            x == d * (x / d) + x % d,
            0 <= x % d < d,
            x >= q * d,
            d > 0,
    ;
    if n < 0 {
        assert(-(n * SCALE) == a * SCALE) by (nonlinear_arith)
            requires
                a == -n,
        ;
    } else {
        assert(n * SCALE >= 0) by (nonlinear_arith)
            requires
                n >= 0,
        ;
    }
}

/// Quotient rounded to the nearest integer.
pub(crate) fn wide_nearest(n: i128, d: i128) -> (q: i128)
    requires
        d != 0,
        -0x4000_0000_0000_0000_0000_0000_0000_0000 <= n <= 0x4000_0000_0000_0000_0000_0000_0000_0000,
        -0x4000_0000_0000_0000_0000_0000_0000_0000 <= d <= 0x4000_0000_0000_0000_0000_0000_0000_0000,
    ensures
        q == nearest(n as int, d as int),
{
    let down: i128 = wide_quot(n, d);
    proof {
        lemma_quot_remainder(n as int, d as int);
        assert(-0x4000_0000_0000_0000_0000_0000_0000_0000 <= d * down
            <= 0x4000_0000_0000_0000_0000_0000_0000_0000 && -0x4000_0000_0000_0000_0000_0000_0000_0000
            <= down <= 0x4000_0000_0000_0000_0000_0000_0000_0000) by (nonlinear_arith)
            requires
                d != 0,
                -0x4000_0000_0000_0000_0000_0000_0000_0000 <= n
                    <= 0x4000_0000_0000_0000_0000_0000_0000_0000,
                -d < n - d * down < d || d < n - d * down < -d,
                n >= 0 ==> n - d * down >= 0,
                n <= 0 ==> n - d * down <= 0,
        ;
    }
    let rest: i128 = n - d * down;
    if (d > 0 && 2 * rest >= d) || (d < 0 && 2 * rest <= d) {
        down + 1
    } else if (d > 0 && 2 * rest <= -d) || (d < 0 && 2 * rest >= -d) {
        down - 1
    } else {
        down
    }
}

/// A quotient rounded to the nearest integer is off by at most half the
/// divisor.
pub proof fn lemma_nearest_remainder(n: int, d: int)
    requires
        d != 0,
    ensures
        -d <= 2 * (n - d * nearest(n, d)) <= d || d <= 2 * (n - d * nearest(n, d)) <= -d,
{
    lemma_quot_remainder(n, d);
    let q = quot(n, d);
    assert(d * (q + 1) == d * q + d && d * (q - 1) == d * q - d) by (nonlinear_arith);
}

/// What a quotient rounded toward zero leaves over is smaller than the
/// divisor.
pub proof fn lemma_quot_remainder(n: int, d: int)
    requires
        d != 0,
    ensures
        -d < n - d * quot(n, d) < d || d < n - d * quot(n, d) < -d,
        n >= 0 ==> n - d * quot(n, d) >= 0,
        n <= 0 ==> n - d * quot(n, d) <= 0,
{
    let a = if n >= 0 {
        n
    } else {
        -n
    };
    let b = if d > 0 {
        d
    } else {
        -d
    };
    lemma_fundamental_div_mod(a, b);
    lemma_mod_pos_bound(a, b);
    let k = a / b;
    assert(d * quot(n, d) == if n >= 0 {
        b * k
    } else {
        -(b * k)
    }) by (nonlinear_arith)
        requires
            b == d || b == -d,
            b > 0,
            quot(n, d) == (if (n >= 0) == (d > 0) {
                k
            } else {
                -k
            }),
            b == d <==> d > 0,
    ;
}

/// The integer square root is unique.
pub proof fn lemma_floor_sqrt_unique(n: int, r: int, s: int)
    requires
        is_floor_sqrt(n, r),
        is_floor_sqrt(n, s),
    ensures
        r == s,
{
    if r < s {
        assert((r + 1) * (r + 1) <= s * s) by (nonlinear_arith)
            requires
                0 <= r,
                r + 1 <= s,
        ;
    } else if s < r {
        assert((s + 1) * (s + 1) <= r * r) by (nonlinear_arith)
            requires
                0 <= s,
                s + 1 <= r,
        ;
    }
}

/// Integer square root by bisection.
pub(crate) fn integer_sqrt(n: u128) -> (r: u128)
    ensures
        r == floor_sqrt(n as int),
        is_floor_sqrt(n as int, r as int),
        r < 0x1_0000_0000_0000_0000,
{
    let mut lo: u128 = 0;
    let mut hi: u128 = 0x1_0000_0000_0000_0000;
    assert(0x1_0000_0000_0000_0000int * 0x1_0000_0000_0000_0000int
        == 0x1_0000_0000_0000_0000_0000_0000_0000_0000int) by (nonlinear_arith);
    while hi - lo > 1
        invariant
            lo < hi <= 0x1_0000_0000_0000_0000,
            lo * lo <= n < hi * hi,
        decreases hi - lo,
    {
        let mid: u128 = lo + (hi - lo) / 2;
        assert(mid * mid < 0x1_0000_0000_0000_0000_0000_0000_0000_0000) by (nonlinear_arith)
            requires
                mid < 0x1_0000_0000_0000_0000,
        ;
        if mid * mid <= n {
            lo = mid;
        } else {
            hi = mid;
        }
    }
    proof {
        lemma_floor_sqrt_unique(n as int, lo as int, floor_sqrt(n as int));
    }
    lo
}

/// Every non-negative integer has an integer square root.
pub proof fn lemma_floor_sqrt_exists(n: int)
    requires
        0 <= n,
    ensures
        is_floor_sqrt(n, floor_sqrt(n)),
    decreases n,
{
    if n == 0 {
        assert(is_floor_sqrt(0, 0));
    } else {
        lemma_floor_sqrt_exists(n - 1);
        let r = floor_sqrt(n - 1);
        if (r + 1) * (r + 1) <= n {
            assert(n < (r + 2) * (r + 2)) by (nonlinear_arith)
                requires
                    0 <= r,
                    n - 1 < (r + 1) * (r + 1),
            ;
            assert(is_floor_sqrt(n, r + 1));
        } else {
            assert(is_floor_sqrt(n, r));
        }
    }
}

/// The product of two numbers that are not negative, where defined, is
/// not negative.
pub proof fn lemma_mul_nonnegative(a: Fixed, b: Fixed)
    requires
        a.defined() ==> a.val() >= 0,
        b.defined() ==> b.val() >= 0,
    ensures
        a.mul_spec(b).defined() ==> a.mul_spec(b).val() >= 0,
{
    if a.defined() && b.defined() {
        assert(a.val() * b.val() >= 0) by (nonlinear_arith)
            requires
                a.val() >= 0,
                b.val() >= 0,
        ;
    }
}

/// Multiplying by one changes nothing.
pub proof fn lemma_mul_one(a: Fixed)
    ensures
        fixed_of(SCALE as int).mul_spec(a) == a,
        a.mul_spec(fixed_of(SCALE as int)) == a,
{
    if a.defined() {
        let v = a.val();
        assert(SCALE * v == v * SCALE) by (nonlinear_arith);
        assert(quot(v * SCALE, SCALE as int) == v);
    }
}

/// Multiplying a defined number by zero gives zero.
pub proof fn lemma_mul_zero(a: Fixed)
    requires
        a.defined(),
    ensures
        fixed_of(0).mul_spec(a) == fixed_of(0),
{
    assert(0 * a.val() == 0) by (nonlinear_arith);
}

} // verus!
