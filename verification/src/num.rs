use vstd::prelude::*;

verus! {

/// Largest magnitude allowed for the numerator and the denominator of a
/// comparable rational. The cross product of two such values stays well
/// within `i128`, so comparisons never overflow.
pub const FRAC_LIMIT: i128 = 100_000_000_000_000_000;

/// An exact rational number `num / den`. Distances along a ray are kept as
/// rationals, so entry distances and hit distances compare exactly.
#[derive(Clone, Copy, Debug)]
pub struct Rat {
    pub num: i128,
    pub den: i128,
}

impl Rat {
    /// A rational is well formed when its denominator is positive.
    pub open spec fn wf(self) -> bool {
        self.den > 0
    }

    /// Small enough that cross products of two such rationals fit in `i128`.
    pub open spec fn bounded(self) -> bool {
        &&& self.wf()
        &&& -FRAC_LIMIT <= self.num <= FRAC_LIMIT
        &&& 0 < self.den <= FRAC_LIMIT
    }

    pub open spec fn spec_le(self, other: Rat) -> bool {
        self.num * other.den <= other.num * self.den
    }

    pub open spec fn spec_lt(self, other: Rat) -> bool {
        self.num * other.den < other.num * self.den
    }

    /// Equal as numbers; the two representations may differ.
    pub open spec fn spec_eq(self, other: Rat) -> bool {
        self.num * other.den == other.num * self.den
    }

    pub open spec fn spec_nonneg(self) -> bool {
        self.num >= 0
    }

    pub open spec fn spec_pos(self) -> bool {
        self.num > 0
    }


    pub fn le(self, other: Rat) -> (r: bool)
        requires
            self.bounded(),
            other.bounded(),
        ensures
            r == self.spec_le(other),
    {
        proof {
            lemma_mul_bound(self.num as int, other.den as int, FRAC_LIMIT as int, FRAC_LIMIT as int);
            lemma_mul_bound(other.num as int, self.den as int, FRAC_LIMIT as int, FRAC_LIMIT as int);
        }
        self.num * other.den <= other.num * self.den
    }

    pub fn lt(self, other: Rat) -> (r: bool)
        requires
            self.bounded(),
            other.bounded(),
        ensures
            r == self.spec_lt(other),
    {
        proof {
            lemma_mul_bound(self.num as int, other.den as int, FRAC_LIMIT as int, FRAC_LIMIT as int);
            lemma_mul_bound(other.num as int, self.den as int, FRAC_LIMIT as int, FRAC_LIMIT as int);
        }
        self.num * other.den < other.num * self.den
    }


}

/// The square of an integer; the trigger for square-root reasoning.
pub open spec fn sq(s: int) -> int {
    s * s
}

/// Whether `s` is the floor of the square root of `n`.
pub open spec fn is_floor_sqrt(n: int, s: int) -> bool {
    0 <= s && sq(s) <= n < sq(s + 1)
}

/// The floor of the square root of a nonnegative integer.
pub open spec fn floor_sqrt(n: int) -> int {
    choose|s: int| is_floor_sqrt(n, s)
}

/// The floor square root is unique, so a value bracketing `n` is it.
pub proof fn lemma_floor_sqrt_of(n: int, s: int)
    requires
        is_floor_sqrt(n, s),
    ensures
        floor_sqrt(n) == s,
{
    let s2 = floor_sqrt(n);
    assert(is_floor_sqrt(n, s2));
    assert(s2 == s) by (nonlinear_arith)
        requires
            0 <= s,
            0 <= s2,
            s * s <= n,
            n < (s + 1) * (s + 1),
            s2 * s2 <= n,
            n < (s2 + 1) * (s2 + 1),
    ;
}

/// The integer square root, by bisection.
pub fn isqrt(n: u128) -> (r: u128)
    requires
        n < 85070591730234615865843651857942052864,
    ensures
        r * r <= n < (r + 1) * (r + 1),
{
    let mut lo: u128 = 0;
    let mut hi: u128 = 9223372036854775808;
    proof {
        assert(n < hi * hi);
    }
    while lo + 1 < hi
        invariant
            lo < hi,
            hi <= 9223372036854775808,
            lo * lo <= n,
            n < hi * hi,
        decreases hi - lo,
    {
        let mid: u128 = lo + (hi - lo) / 2;
        proof {
            lemma_mul_bound(mid as int, mid as int, hi as int, hi as int);
            lemma_mul_bound(hi as int, hi as int, 9223372036854775808, 9223372036854775808);
        }
        if mid * mid <= n {
            lo = mid;
        } else {
            hi = mid;
        }
    }
    lo
}

/// Floor division by a positive divisor stays between zero and the
/// dividend.
pub proof fn lemma_div_le(x: int, d: int)
    requires
        x >= 0,
        d >= 1,
    ensures
        0 <= x / d,
        x / d <= x,
{
    vstd::arithmetic::div_mod::lemma_fundamental_div_mod(x, d);
    vstd::arithmetic::div_mod::lemma_mod_bound(x, d);
    let q = x / d;
    let r = x % d;
    assert(0 <= q && q <= x) by (nonlinear_arith)
        requires
            x == d * q + r,
            0 <= r < d,
            d >= 1,
            x >= 0,
    ;
}

/// The product of two values is bounded by the product of their bounds.
pub proof fn lemma_mul_bound(a: int, b: int, m: int, n: int) by (nonlinear_arith)
    requires
        -m <= a <= m,
        -n <= b <= n,
        0 <= m,
        0 <= n,
    ensures
        -(m * n) <= a * b <= m * n,
{
}

} // verus!
