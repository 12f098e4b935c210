use vstd::prelude::*;

verus! {

/// An exact rational number `num / den`.
///
/// A ratio is never reduced, and the derived `==` compares numerator and
/// denominator: `5050 / 100` and `101 / 2` are different values of this type
/// although they stand for the same number. Use `same_value` to compare the
/// numbers.
#[derive(Clone, Copy, Debug, PartialEq, Eq, Structural)]
pub struct Ratio {
    pub num: i128,
    pub den: u64,
}

impl Ratio {
    /// A positive denominator and a value within the range of the samples
    /// (`i64`). Every ratio this library hands out is so.
    pub open spec fn in_range(self) -> bool {
        &&& 1 <= self.den
        &&& i64::MIN * self.den <= self.num <= i64::MAX * self.den
    }

    /// The two ratios stand for the same number.
    pub open spec fn same_value_spec(self, other: Ratio) -> bool {
        self.num * other.den == other.num * self.den
    }

    /// Whether the two ratios stand for the same number.
    pub fn same_value(&self, other: &Ratio) -> (r: bool)
        requires
            self.in_range(),
            other.in_range(),
        ensures
            r == self.same_value_spec(*other),
    {
        let (q1, r1) = floor_form(self.num, self.den);
        let (q2, r2) = floor_form(other.num, other.den);
        proof {
            lemma_mixed_order(
                q1 - shift(),
                r1 as int,
                self.den as int,
                q2 - shift(),
                r2 as int,
                other.den as int,
            );
            lemma_mixed_order(
                q2 - shift(),
                r2 as int,
                other.den as int,
                q1 - shift(),
                r1 as int,
                self.den as int,
            );
            assert(r1 * other.den < 0x1_0000_0000_0000_0000 * 0x1_0000_0000_0000_0000) by (nonlinear_arith)
                requires
                    r1 < self.den <= 0xFFFF_FFFF_FFFF_FFFF,
                    other.den <= 0xFFFF_FFFF_FFFF_FFFF,
            ;
            assert(r2 * self.den < 0x1_0000_0000_0000_0000 * 0x1_0000_0000_0000_0000) by (nonlinear_arith)
                requires
                    r2 < other.den <= 0xFFFF_FFFF_FFFF_FFFF,
                    self.den <= 0xFFFF_FFFF_FFFF_FFFF,
            ;
        }
        q1 == q2 && r1 * (other.den as u128) == r2 * (self.den as u128)
    }
}

/// 2^63: added to a value in the range of `i64`, it makes it non-negative.
pub open spec fn shift() -> int {
    0x8000_0000_0000_0000
}

/// `num / den`, for a value in the range of `i64`, written as
/// `(q - 2^63) + r / den` with `0 <= r < den` and `q` below 2^64.
pub fn floor_form(num: i128, den: u64) -> (r: (u128, u128))
    requires
        1 <= den,
        i64::MIN * den <= num <= i64::MAX * den,
    ensures
        r.0 < 0x1_0000_0000_0000_0000,
        r.1 < den,
        num == (r.0 - shift()) * den + r.1,
{
    let d = den as u128;
    assert(0x8000_0000_0000_0000 * d <= 0x8000_0000_0000_0000 * 0xFFFF_FFFF_FFFF_FFFF);
    let base = 0x8000_0000_0000_0000u128 * d;
    let shifted: u128 = if num >= 0 {
        assert(num + base <= 0xFFFF_FFFF_FFFF_FFFF * d);
        assert(0xFFFF_FFFF_FFFF_FFFF * d <= 0xFFFF_FFFF_FFFF_FFFF * 0xFFFF_FFFF_FFFF_FFFF);
        num as u128 + base
    } else {
        base - ((-num) as u128)
    };
    assert(shifted == num + shift() * den);
    assert(shifted <= 0xFFFF_FFFF_FFFF_FFFF * d);
    let q = shifted / d;
    let rem = shifted % d;
    assert(shifted == q * d + rem) by (nonlinear_arith)
        requires
            d > 0,
            q == shifted / d,
            rem == shifted % d,
    ;
    assert(q < 0x1_0000_0000_0000_0000) by (nonlinear_arith)
        requires
            d > 0,
            shifted == q * d + rem,
            rem >= 0,
            shifted <= 0xFFFF_FFFF_FFFF_FFFF * d,
    ;
    assert(num == (q - shift()) * den + rem) by (nonlinear_arith)
        requires
            shifted == q * d + rem,
            shifted == num + shift() * den,
            d == den,
    ;
    (q, rem)
}

/// Two numbers written as `k + p / d` with `0 <= p < d` compare by `k`
/// first, then by `p / d`.
pub proof fn lemma_mixed_order(k1: int, p1: int, d1: int, k2: int, p2: int, d2: int)
    requires
        0 <= p1 < d1,
        0 <= p2 < d2,
    ensures
        ((k1 * d1 + p1) * d2 < (k2 * d2 + p2) * d1) == (k1 < k2 || (k1 == k2 && p1 * d2 < p2 * d1)),
{
    let e = d1 * d2;
    assert(e > 0) by (nonlinear_arith)
        requires
            d1 > 0,
            d2 > 0,
            e == d1 * d2,
    ;
    assert(0 <= p1 * d2 < e) by (nonlinear_arith)
        requires
            0 <= p1 < d1,
            d2 > 0,
            e == d1 * d2,
    ;
    assert(0 <= p2 * d1 < e) by (nonlinear_arith)
        requires
            0 <= p2 < d2,
            d1 > 0,
            e == d1 * d2,
    ;
    assert((k1 * d1 + p1) * d2 == k1 * e + p1 * d2) by (nonlinear_arith)
        requires
            e == d1 * d2,
    ;
    assert((k2 * d2 + p2) * d1 == k2 * e + p2 * d1) by (nonlinear_arith)
        requires
            e == d1 * d2,
    ;
    if k1 < k2 {
        assert(k1 * e + e <= k2 * e) by (nonlinear_arith)
            requires
                k1 < k2,
                e > 0,
        ;
    } else if k2 < k1 {
        assert(k2 * e + e <= k1 * e) by (nonlinear_arith)
            requires
                k2 < k1,
                e > 0,
        ;
    }
}

/// `a * b < c * d` for factors below 2^126, computed without overflow by
/// splitting each product into a high and a low part.
pub fn product_less(a: u128, b: u128, c: u128, d: u128) -> (r: bool)
    requires
        a < 0x4000_0000_0000_0000_0000_0000_0000_0000,
        b < 0x4000_0000_0000_0000_0000_0000_0000_0000,
        c < 0x4000_0000_0000_0000_0000_0000_0000_0000,
        d < 0x4000_0000_0000_0000_0000_0000_0000_0000,
    ensures
        r == (a * b < c * d),
{
    let (h1, l1) = wide_mul(a, b);
    let (h2, l2) = wide_mul(c, d);
    proof {
        lemma_wide_order(h1 as int, l1 as int, h2 as int, l2 as int);
    }
    h1 < h2 || (h1 == h2 && l1 < l2)
}

proof fn lemma_wide_order(h1: int, l1: int, h2: int, l2: int)
    requires
        0 <= l1 < (0x1_0000_0000_0000_0000 * 0x1_0000_0000_0000_0000),
        0 <= l2 < (0x1_0000_0000_0000_0000 * 0x1_0000_0000_0000_0000),
    ensures
        (h1 * (0x1_0000_0000_0000_0000 * 0x1_0000_0000_0000_0000) + l1 < h2 * (0x1_0000_0000_0000_0000 * 0x1_0000_0000_0000_0000)
            + l2) == (h1 < h2 || (h1 == h2 && l1 < l2)),
{
    let base: int = (0x1_0000_0000_0000_0000 * 0x1_0000_0000_0000_0000) as int;
    if h1 < h2 {
        assert(h1 * base + base <= h2 * base) by (nonlinear_arith)
            requires
                h1 < h2,
                base > 0,
        ;
    } else if h2 < h1 {
        assert(h2 * base + base <= h1 * base) by (nonlinear_arith)
            requires
                h2 < h1,
                base > 0,
        ;
    }
}

/// `a * b` as `(hi, lo)` with `a * b == hi * 2^128 + lo`.
fn wide_mul(a: u128, b: u128) -> (r: (u128, u128))
    requires
        a < 0x4000_0000_0000_0000_0000_0000_0000_0000,
        b < 0x4000_0000_0000_0000_0000_0000_0000_0000,
    ensures
        r.0 * (0x1_0000_0000_0000_0000 * 0x1_0000_0000_0000_0000) + r.1 == a * b,
{
    let base: u128 = 0x1_0000_0000_0000_0000;
    let a_hi = a / base;
    let a_lo = a % base;
    let b_hi = b / base;
    let b_lo = b % base;
    assert(a == a_hi * base + a_lo);
    assert(b == b_hi * base + b_lo);
    assert(a_hi < 0x4000_0000_0000_0000);
    assert(b_hi < 0x4000_0000_0000_0000);
    assert(a_hi * b_hi < 0x1000_0000_0000_0000_0000_0000_0000_0000) by (nonlinear_arith)
        requires
            a_hi < 0x4000_0000_0000_0000,
            b_hi < 0x4000_0000_0000_0000,
    ;
    assert(a_hi * b_lo < 0x4000_0000_0000_0000_0000_0000_0000_0000) by (nonlinear_arith)
        requires
            a_hi < 0x4000_0000_0000_0000,
            b_lo < 0x1_0000_0000_0000_0000,
    ;
    assert(a_lo * b_hi < 0x4000_0000_0000_0000_0000_0000_0000_0000) by (nonlinear_arith)
        requires
            b_hi < 0x4000_0000_0000_0000,
            a_lo < 0x1_0000_0000_0000_0000,
    ;
    assert(a_lo * b_lo < (0x1_0000_0000_0000_0000 * 0x1_0000_0000_0000_0000)) by (nonlinear_arith)
        requires
            a_lo < 0x1_0000_0000_0000_0000,
            b_lo < 0x1_0000_0000_0000_0000,
    ;
    let hh = a_hi * b_hi;
    let m1 = a_hi * b_lo;
    let m2 = a_lo * b_hi;
    let ll = a_lo * b_lo;
    let mid = m1 + m2 + ll / base;
    let hi = hh + mid / base;
    let mid_lo = mid % base;
    let ll_lo = ll % base;
    assert(mid_lo * base + ll_lo < (0x1_0000_0000_0000_0000 * 0x1_0000_0000_0000_0000)) by (nonlinear_arith)
        requires
            mid_lo < 0x1_0000_0000_0000_0000,
            ll_lo < 0x1_0000_0000_0000_0000,
            base == 0x1_0000_0000_0000_0000,
    ;
    let lo = mid_lo * base + ll_lo;
    assert(ll == (ll / base) * base + ll_lo);
    assert(mid == (mid / base) * base + mid_lo);
    assert(a * b == hh * (base * base) + (m1 + m2) * base + ll) by (nonlinear_arith)
        requires
            a == a_hi * base + a_lo,
            b == b_hi * base + b_lo,
            hh == a_hi * b_hi,
            m1 == a_hi * b_lo,
            m2 == a_lo * b_hi,
            ll == a_lo * b_lo,
    ;
    assert(a * b == hi * (base * base) + lo) by (nonlinear_arith)
        requires
            a * b == hh * (base * base) + (m1 + m2) * base + ll,
            ll == (ll / base) * base + ll_lo,
            mid == m1 + m2 + ll / base,
            mid == (mid / base) * base + mid_lo,
            hi == hh + mid / base,
            lo == mid_lo * base + ll_lo,
    ;
    (hi, lo)
}

} // verus!
