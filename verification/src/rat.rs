//! Exact rational arithmetic for viewport geometry: executable fractions over
//! machine integers, reduced by a common divisor and checked against the
//! representable range, with an unbounded spec-level rational model.
use vstd::prelude::*;
use vstd::arithmetic::div_mod::lemma_fundamental_div_mod;

verus! {

/// Spec-level rational number as an unbounded numerator/denominator pair.
pub ghost struct Rat {
    pub n: int,
    pub d: int,
}

/// Build a spec rational from a pair of integers.
pub open spec fn rat(n: int, d: int) -> Rat {
    Rat { n, d }
}

/// Equality of rational values by cross multiplication (denominators nonzero).
pub open spec fn rat_eq(a: Rat, b: Rat) -> bool {
    a.n * b.d == b.n * a.d
}

/// Sum of two rationals.
pub open spec fn rat_add(a: Rat, b: Rat) -> Rat {
    Rat { n: a.n * b.d + b.n * a.d, d: a.d * b.d }
}

/// Difference of two rationals.
pub open spec fn rat_sub(a: Rat, b: Rat) -> Rat {
    Rat { n: a.n * b.d - b.n * a.d, d: a.d * b.d }
}

/// Product of two rationals.
pub open spec fn rat_mul(a: Rat, b: Rat) -> Rat {
    Rat { n: a.n * b.n, d: a.d * b.d }
}

/// Quotient of two rationals, keeping the denominator positive.
pub open spec fn rat_div(a: Rat, b: Rat) -> Rat {
    if b.n >= 0 {
        Rat { n: a.n * b.d, d: a.d * b.n }
    } else {
        Rat { n: -(a.n * b.d), d: a.d * (-b.n) }
    }
}

/// Negation of a rational.
pub open spec fn rat_neg(a: Rat) -> Rat {
    Rat { n: -a.n, d: a.d }
}

/// Strict order on rationals with positive denominators.
pub open spec fn rat_lt(a: Rat, b: Rat) -> bool {
    a.n * b.d < b.n * a.d
}

/// Non-strict order on rationals with positive denominators.
pub open spec fn rat_le(a: Rat, b: Rat) -> bool {
    a.n * b.d <= b.n * a.d
}

/// Half of a rational.
pub open spec fn rat_half(a: Rat) -> Rat {
    Rat { n: a.n, d: a.d * 2 }
}

/// Absolute value of an integer.
pub open spec fn iabs(v: int) -> int {
    if v < 0 {
        -v
    } else {
        v
    }
}

/// An executable fraction: numerator over a positive denominator, both held
/// in machine integers.
#[derive(Clone, Copy, Debug)]
pub struct Frac {
    /// Numerator.
    pub num: i64,
    /// Denominator (always at least one).
    pub den: i64,
}

impl View for Frac {
    type V = Rat;

    open spec fn view(&self) -> Rat {
        Rat { n: self.num as int, d: self.den as int }
    }
}

/// `|a * b| <= ca * cb` whenever `|a| <= ca` and `|b| <= cb`.
pub proof fn lemma_abs_mul(a: int, b: int, ca: int, cb: int)
    requires
        -ca <= a <= ca,
        -cb <= b <= cb,
        0 <= ca,
        0 <= cb,
    ensures
        -(ca * cb) <= a * b <= ca * cb,
{
    assert(-(ca * cb) <= a * b <= ca * cb) by (nonlinear_arith)
        requires
            -ca <= a <= ca,
            -cb <= b <= cb,
            0 <= ca,
            0 <= cb,
    ;
}

/// A product of two positive integers is positive.
pub proof fn lemma_mul_pos(a: int, b: int)
    requires
        a >= 1,
        b >= 1,
    ensures
        a * b >= 1,
{
    assert(a * b >= 1) by (nonlinear_arith)
        requires
            a >= 1,
            b >= 1,
    ;
}

/// A product of a positive and a negative integer is negative.
pub proof fn lemma_mul_neg(a: int, b: int)
    requires
        a >= 1,
        b <= -1,
    ensures
        a * b <= -1,
{
    assert(a * b <= -1) by (nonlinear_arith)
        requires
            a >= 1,
            b <= -1,
    ;
}

/// Greatest common divisor scaffold: any positive result is enough here, the
/// caller re-checks divisibility before using it.
fn gcd_u128(a0: u128, b0: u128) -> (g: u128)
    requires
        b0 >= 1,
    ensures
        g >= 1,
{
    let mut a = a0;
    let mut b = b0;
    while b != 0
        invariant
            a >= 1 || b >= 1,
        decreases b,
    {
        let t = a % b;
        a = b;
        b = t;
    }
    a
}

/// Reduce a fraction by a common divisor, preserving its value exactly.
fn reduce128(n: i128, d: i128) -> (r: (i128, i128))
    requires
        1 <= d,
        -i128::MAX <= n,
    ensures
        1 <= r.1 <= d,
        r.0 * d == n * r.1,
        n >= 0 ==> 0 <= r.0 <= n,
        n < 0 ==> n <= r.0 < 0,
{
    let m: u128 = if n < 0 {
        (-n) as u128
    } else {
        n as u128
    };
    let g = gcd_u128(m, d as u128);
    if m % g == 0 && (d as u128) % g == 0 && m / g <= i128::MAX as u128 {
        let m2 = m / g;
        let d2 = (d as u128) / g;
        proof {
            lemma_fundamental_div_mod(m as int, g as int);
            lemma_fundamental_div_mod(d as int, g as int);
            assert(m as int % g as int == 0);
            assert(d as int % g as int == 0);
            assert(m as int == g as int * (m as int / g as int));
            assert(d as int == g as int * (d as int / g as int));
            assert(m2 as int == m as int / g as int);
            assert(d2 as int == d as int / g as int);
            assert(m2 as int * g as int == m as int);
            assert(d2 as int * g as int == d as int);
            assert(d2 as int >= 1) by (nonlinear_arith)
                requires
                    d2 as int * g as int == d as int,
                    d as int >= 1,
                    g as int >= 1,
                    d2 as int >= 0,
            ;
            assert(m2 as int <= m as int) by (nonlinear_arith)
                requires
                    m2 as int * g as int == m as int,
                    g as int >= 1,
                    m2 as int >= 0,
            ;
            assert(d2 as int <= d as int) by (nonlinear_arith)
                requires
                    d2 as int * g as int == d as int,
                    g as int >= 1,
                    d2 as int >= 0,
            ;
            assert(m2 as int * d as int == m as int * d2 as int) by (nonlinear_arith)
                requires
                    m2 as int * g as int == m as int,
                    d2 as int * g as int == d as int,
            ;
        }
        if n < 0 {
            let rn: i128 = -(m2 as i128);
            let rd: i128 = d2 as i128;
            proof {
                assert(m as int == -(n as int));
                assert(m2 as int >= 1) by (nonlinear_arith)
                    requires
                        m2 as int * g as int == m as int,
                        m as int >= 1,
                        g as int >= 1,
                        m2 as int >= 0,
                ;
                assert(rn as int == -(m2 as int));
                assert(rn as int * d as int == n as int * rd as int) by (nonlinear_arith)
                    requires
                        m2 as int * d as int == m as int * d2 as int,
                        rn as int == -(m2 as int),
                        m as int == -(n as int),
                        rd as int == d2 as int,
                ;
            }
            (rn, rd)
        } else {
            let rn: i128 = m2 as i128;
            let rd: i128 = d2 as i128;
            proof {
                assert(rn as int * d as int == n as int * rd as int) by (nonlinear_arith)
                    requires
                        m2 as int * d as int == m as int * d2 as int,
                        rn as int == m2 as int,
                        m as int == n as int,
                        rd as int == d2 as int,
                ;
            }
            (rn, rd)
        }
    } else {
        (n, d)
    }
}

impl Frac {
    /// Representation invariant: positive denominator, negatable numerator.
    pub open spec fn wf(self) -> bool {
        1 <= self.den && -i64::MAX <= self.num
    }

    /// Whether the rational value is strictly positive.
    pub open spec fn pos(self) -> bool {
        self.num >= 1
    }

    /// Components small enough that one further ring operation cannot leave
    /// the representable range.
    pub open spec fn small(self) -> bool {
        -0x7fff_ffff <= self.num <= 0x7fff_ffff && self.den <= 0x7fff_ffff
    }

    /// The fraction `v / 1`.
    pub fn from_int(v: i64) -> (r: Frac)
        requires
            v > i64::MIN,
        ensures
            r.wf(),
            r.num == v,
            r.den == 1,
    {
        Frac { num: v, den: 1 }
    }

    /// Build a reduced fraction equal to `n / d`, when it fits.
    fn make(n: i128, d: i128) -> (r: Option<Frac>)
        requires
            1 <= d,
            -i128::MAX <= n,
        ensures
            match r {
                Some(f) => f.wf() && (f.num as int) * d == n * (f.den as int) && iabs(f.num as int)
                    <= iabs(n as int) && f.den <= d,
                None => true,
            },
            (-(i64::MAX as i128) <= n <= i64::MAX as i128 && d <= i64::MAX as i128) ==> r is Some,
    {
        let (n2, d2) = reduce128(n, d);
        if -(i64::MAX as i128) <= n2 && n2 <= i64::MAX as i128 && d2 <= i64::MAX as i128 {
            Some(Frac { num: n2 as i64, den: d2 as i64 })
        } else {
            None
        }
    }

    /// Checked addition; exact on success, `None` only when the reduced result
    /// leaves the representable range.
    pub fn try_add(self, other: Frac) -> (r: Option<Frac>)
        requires
            self.wf(),
            other.wf(),
        ensures
            match r {
                Some(f) => f.wf() && rat_eq(f@, rat_add(self@, other@)) && iabs(f@.n) <= iabs(
                    rat_add(self@, other@).n,
                ) && f@.d <= self@.d * other@.d,
                None => true,
            },
            iabs(rat_add(self@, other@).n) <= i64::MAX && self@.d * other@.d <= i64::MAX
                ==> r is Some,
            self.small() && other.small() ==> r is Some,
    {
        proof {
            lemma_abs_mul(self.num as int, other.den as int, i64::MAX as int, i64::MAX as int);
            lemma_abs_mul(other.num as int, self.den as int, i64::MAX as int, i64::MAX as int);
            lemma_abs_mul(self.den as int, other.den as int, i64::MAX as int, i64::MAX as int);
            lemma_mul_pos(self.den as int, other.den as int);
            if self.small() && other.small() {
                lemma_abs_mul(self.num as int, other.den as int, 0x7fff_ffff, 0x7fff_ffff);
                lemma_abs_mul(other.num as int, self.den as int, 0x7fff_ffff, 0x7fff_ffff);
                lemma_abs_mul(self.den as int, other.den as int, 0x7fff_ffff, 0x7fff_ffff);
            }
        }
        let n = (self.num as i128) * (other.den as i128) + (other.num as i128) * (self.den as i128);
        let d = (self.den as i128) * (other.den as i128);
        Frac::make(n, d)
    }

    /// Checked subtraction; exact on success.
    pub fn try_sub(self, other: Frac) -> (r: Option<Frac>)
        requires
            self.wf(),
            other.wf(),
        ensures
            match r {
                Some(f) => f.wf() && rat_eq(f@, rat_sub(self@, other@)) && iabs(f@.n) <= iabs(
                    rat_sub(self@, other@).n,
                ) && f@.d <= self@.d * other@.d,
                None => true,
            },
            iabs(rat_sub(self@, other@).n) <= i64::MAX && self@.d * other@.d <= i64::MAX
                ==> r is Some,
            self.small() && other.small() ==> r is Some,
    {
        proof {
            lemma_abs_mul(self.num as int, other.den as int, i64::MAX as int, i64::MAX as int);
            lemma_abs_mul(other.num as int, self.den as int, i64::MAX as int, i64::MAX as int);
            lemma_abs_mul(self.den as int, other.den as int, i64::MAX as int, i64::MAX as int);
            lemma_mul_pos(self.den as int, other.den as int);
            if self.small() && other.small() {
                lemma_abs_mul(self.num as int, other.den as int, 0x7fff_ffff, 0x7fff_ffff);
                lemma_abs_mul(other.num as int, self.den as int, 0x7fff_ffff, 0x7fff_ffff);
                lemma_abs_mul(self.den as int, other.den as int, 0x7fff_ffff, 0x7fff_ffff);
            }
        }
        let n = (self.num as i128) * (other.den as i128) - (other.num as i128) * (self.den as i128);
        let d = (self.den as i128) * (other.den as i128);
        Frac::make(n, d)
    }

    /// Checked multiplication; exact on success.
    pub fn try_mul(self, other: Frac) -> (r: Option<Frac>)
        requires
            self.wf(),
            other.wf(),
        ensures
            match r {
                Some(f) => f.wf() && rat_eq(f@, rat_mul(self@, other@)) && iabs(f@.n) <= iabs(
                    rat_mul(self@, other@).n,
                ) && f@.d <= self@.d * other@.d,
                None => true,
            },
            iabs(rat_mul(self@, other@).n) <= i64::MAX && self@.d * other@.d <= i64::MAX
                ==> r is Some,
            self.small() && other.small() ==> r is Some,
    {
        proof {
            lemma_abs_mul(self.num as int, other.num as int, i64::MAX as int, i64::MAX as int);
            lemma_abs_mul(self.den as int, other.den as int, i64::MAX as int, i64::MAX as int);
            lemma_mul_pos(self.den as int, other.den as int);
            if self.small() && other.small() {
                lemma_abs_mul(self.num as int, other.num as int, 0x7fff_ffff, 0x7fff_ffff);
                lemma_abs_mul(self.den as int, other.den as int, 0x7fff_ffff, 0x7fff_ffff);
            }
        }
        let n = (self.num as i128) * (other.num as i128);
        let d = (self.den as i128) * (other.den as i128);
        Frac::make(n, d)
    }

    /// Checked division; `None` on a zero divisor, exact on success.
    pub fn try_div(self, other: Frac) -> (r: Option<Frac>)
        requires
            self.wf(),
            other.wf(),
        ensures
            other.num == 0 ==> r is None,
            match r {
                Some(f) => f.wf() && other.num != 0 && rat_eq(f@, rat_div(self@, other@)) && iabs(
                    f@.n,
                ) <= iabs(self@.n * other@.d) && f@.d <= self@.d * iabs(other@.n),
                None => true,
            },
            iabs(self@.n * other@.d) <= i64::MAX && self@.d * iabs(other@.n) <= i64::MAX
                && other.num != 0 ==> r is Some,
            self.small() && other.small() && other.num != 0 ==> r is Some,
    {
        if other.num == 0 {
            return None;
        }
        proof {
            lemma_abs_mul(self.num as int, other.den as int, i64::MAX as int, i64::MAX as int);
            lemma_abs_mul(self.den as int, other.num as int, i64::MAX as int, i64::MAX as int);
            if self.small() && other.small() {
                lemma_abs_mul(self.num as int, other.den as int, 0x7fff_ffff, 0x7fff_ffff);
                lemma_abs_mul(self.den as int, other.num as int, 0x7fff_ffff, 0x7fff_ffff);
            }
        }
        if other.num > 0 {
            proof {
                lemma_mul_pos(self.den as int, other.num as int);
            }
            let n = (self.num as i128) * (other.den as i128);
            let d = (self.den as i128) * (other.num as i128);
            Frac::make(n, d)
        } else {
            proof {
                lemma_mul_neg(self.den as int, other.num as int);
            }
            let n = -((self.num as i128) * (other.den as i128));
            let d = -((self.den as i128) * (other.num as i128));
            proof {
                assert(d as int == (self.den as int) * (-(other.num as int))) by (nonlinear_arith)
                    requires
                        d as int == -((self.den as int) * (other.num as int)),
                ;
            }
            Frac::make(n, d)
        }
    }

    /// Exact negation.
    pub fn negate(self) -> (r: Frac)
        requires
            self.wf(),
        ensures
            r.wf(),
            r.num == -self.num,
            r.den == self.den,
            rat_eq(r@, rat_neg(self@)),
    {
        Frac { num: -self.num, den: self.den }
    }

    /// Strict comparison of rational values.
    pub fn lt(self, other: Frac) -> (r: bool)
        requires
            self.wf(),
            other.wf(),
        ensures
            r == rat_lt(self@, other@),
    {
        proof {
            lemma_abs_mul(self.num as int, other.den as int, i64::MAX as int, i64::MAX as int);
            lemma_abs_mul(other.num as int, self.den as int, i64::MAX as int, i64::MAX as int);
        }
        (self.num as i128) * (other.den as i128) < (other.num as i128) * (self.den as i128)
    }

    /// Non-strict comparison of rational values.
    pub fn le(self, other: Frac) -> (r: bool)
        requires
            self.wf(),
            other.wf(),
        ensures
            r == rat_le(self@, other@),
    {
        proof {
            lemma_abs_mul(self.num as int, other.den as int, i64::MAX as int, i64::MAX as int);
            lemma_abs_mul(other.num as int, self.den as int, i64::MAX as int, i64::MAX as int);
        }
        (self.num as i128) * (other.den as i128) <= (other.num as i128) * (self.den as i128)
    }

    /// Clamp into `[lo, hi]`, choosing the nearer bound outside it.
    pub fn clamped(self, lo: Frac, hi: Frac) -> (r: Frac)
        requires
            self.wf(),
            lo.wf(),
            hi.wf(),
        ensures
            r.wf(),
            r == spec_clamped(self, lo, hi),
    {
        if self.lt(lo) {
            lo
        } else if hi.lt(self) {
            hi
        } else {
            self
        }
    }
}

/// The fraction `clamped` picks: the lower bound below it, the upper bound
/// above it, the value itself inside.
pub open spec fn spec_clamped(x: Frac, lo: Frac, hi: Frac) -> Frac {
    if rat_lt(x@, lo@) {
        lo
    } else if rat_lt(hi@, x@) {
        hi
    } else {
        x
    }
}

/// Transitivity of rational-value equality through a nonzero denominator.
pub proof fn lemma_rat_trans(a: Rat, b: Rat, c: Rat)
    requires
        rat_eq(a, b),
        rat_eq(b, c),
        b.d != 0,
    ensures
        rat_eq(a, c),
{
    assert(a.n * c.d * b.d == c.n * a.d * b.d) by (nonlinear_arith)
        requires
            a.n * b.d == b.n * a.d,
            b.n * c.d == c.n * b.d,
    ;
    assert(a.n * c.d == c.n * a.d) by (nonlinear_arith)
        requires
            a.n * c.d * b.d == c.n * a.d * b.d,
            b.d != 0,
    ;
}

/// Addition respects rational-value equality.
pub proof fn lemma_add_congr(a: Rat, a2: Rat, b: Rat, b2: Rat)
    requires
        rat_eq(a, a2),
        rat_eq(b, b2),
    ensures
        rat_eq(rat_add(a, b), rat_add(a2, b2)),
{
    let x = rat_add(a, b);
    let y = rat_add(a2, b2);
    assert((a.n * b.d + b.n * a.d) * (a2.d * b2.d) == (a.n * b.d) * (a2.d * b2.d) + (b.n * a.d) * (
    a2.d * b2.d)) by (nonlinear_arith);
    assert((a.n * b.d) * (a2.d * b2.d) == (a.n * a2.d) * (b.d * b2.d)) by (nonlinear_arith);
    assert((b.n * a.d) * (a2.d * b2.d) == (b.n * b2.d) * (a.d * a2.d)) by (nonlinear_arith);
    assert((a2.n * b2.d + b2.n * a2.d) * (a.d * b.d) == (a2.n * b2.d) * (a.d * b.d) + (b2.n * a2.d)
        * (a.d * b.d)) by (nonlinear_arith);
    assert((a2.n * b2.d) * (a.d * b.d) == (a2.n * a.d) * (b2.d * b.d)) by (nonlinear_arith);
    assert((b2.n * a2.d) * (a.d * b.d) == (b2.n * b.d) * (a2.d * a.d)) by (nonlinear_arith);
    assert((a2.n * a.d) * (b2.d * b.d) == (a.n * a2.d) * (b.d * b2.d)) by (nonlinear_arith)
        requires
            a.n * a2.d == a2.n * a.d,
    ;
    assert((b2.n * b.d) * (a2.d * a.d) == (b.n * b2.d) * (a.d * a2.d)) by (nonlinear_arith)
        requires
            b.n * b2.d == b2.n * b.d,
    ;
    assert(x.n * y.d == y.n * x.d);
}

/// Subtraction respects rational-value equality.
pub proof fn lemma_sub_congr(a: Rat, a2: Rat, b: Rat, b2: Rat)
    requires
        rat_eq(a, a2),
        rat_eq(b, b2),
    ensures
        rat_eq(rat_sub(a, b), rat_sub(a2, b2)),
{
    let x = rat_sub(a, b);
    let y = rat_sub(a2, b2);
    assert((a.n * b.d - b.n * a.d) * (a2.d * b2.d) == (a.n * b.d) * (a2.d * b2.d) - (b.n * a.d) * (
    a2.d * b2.d)) by (nonlinear_arith);
    assert((a.n * b.d) * (a2.d * b2.d) == (a.n * a2.d) * (b.d * b2.d)) by (nonlinear_arith);
    assert((b.n * a.d) * (a2.d * b2.d) == (b.n * b2.d) * (a.d * a2.d)) by (nonlinear_arith);
    assert((a2.n * b2.d - b2.n * a2.d) * (a.d * b.d) == (a2.n * b2.d) * (a.d * b.d) - (b2.n * a2.d)
        * (a.d * b.d)) by (nonlinear_arith);
    assert((a2.n * b2.d) * (a.d * b.d) == (a2.n * a.d) * (b2.d * b.d)) by (nonlinear_arith);
    assert((b2.n * a2.d) * (a.d * b.d) == (b2.n * b.d) * (a2.d * a.d)) by (nonlinear_arith);
    assert((a2.n * a.d) * (b2.d * b.d) == (a.n * a2.d) * (b.d * b2.d)) by (nonlinear_arith)
        requires
            a.n * a2.d == a2.n * a.d,
    ;
    assert((b2.n * b.d) * (a2.d * a.d) == (b.n * b2.d) * (a.d * a2.d)) by (nonlinear_arith)
        requires
            b.n * b2.d == b2.n * b.d,
    ;
    assert(x.n * y.d == y.n * x.d);
}

/// Multiplication respects rational-value equality.
pub proof fn lemma_mul_congr(a: Rat, a2: Rat, b: Rat, b2: Rat)
    requires
        rat_eq(a, a2),
        rat_eq(b, b2),
    ensures
        rat_eq(rat_mul(a, b), rat_mul(a2, b2)),
{
    let x = rat_mul(a, b);
    let y = rat_mul(a2, b2);
    assert(x.n * y.d == y.n * x.d) by (nonlinear_arith)
        requires
            x.n == a.n * b.n,
            x.d == a.d * b.d,
            y.n == a2.n * b2.n,
            y.d == a2.d * b2.d,
            a.n * a2.d == a2.n * a.d,
            b.n * b2.d == b2.n * b.d,
    ;
}

/// Division respects rational-value equality (nonzero divisor, positive
/// denominators).
pub proof fn lemma_div_congr(a: Rat, a2: Rat, b: Rat, b2: Rat)
    requires
        rat_eq(a, a2),
        rat_eq(b, b2),
        b.d >= 1,
        b2.d >= 1,
        b.n != 0,
    ensures
        rat_eq(rat_div(a, b), rat_div(a2, b2)),
{
    let x = rat_div(a, b);
    let y = rat_div(a2, b2);
    if b.n > 0 {
        assert(b2.n > 0) by (nonlinear_arith)
            requires
                b.n * b2.d == b2.n * b.d,
                b.d >= 1,
                b2.d >= 1,
                b.n > 0,
        ;
        assert(x.n * y.d == y.n * x.d) by (nonlinear_arith)
            requires
                x.n == a.n * b.d,
                x.d == a.d * b.n,
                y.n == a2.n * b2.d,
                y.d == a2.d * b2.n,
                a.n * a2.d == a2.n * a.d,
                b.n * b2.d == b2.n * b.d,
        ;
    } else {
        assert(b2.n < 0) by (nonlinear_arith)
            requires
                b.n * b2.d == b2.n * b.d,
                b.d >= 1,
                b2.d >= 1,
                b.n < 0,
        ;
        assert((-(a.n * b.d)) * (a2.d * (-b2.n)) == (a.n * a2.d) * (b.d * b2.n))
            by (nonlinear_arith);
        assert((-(a2.n * b2.d)) * (a.d * (-b.n)) == (a2.n * a.d) * (b2.d * b.n))
            by (nonlinear_arith);
        assert((a2.n * a.d) * (b2.d * b.n) == (a.n * a2.d) * (b.d * b2.n)) by (nonlinear_arith)
            requires
                a.n * a2.d == a2.n * a.d,
                b.n * b2.d == b2.n * b.d,
        ;
        assert(x.n * y.d == y.n * x.d);
    }
}

/// Strict order respects rational-value equality under positive denominators.
pub proof fn lemma_lt_congr(a: Rat, a2: Rat, b: Rat, b2: Rat)
    requires
        rat_eq(a, a2),
        rat_eq(b, b2),
        a.d >= 1,
        a2.d >= 1,
        b.d >= 1,
        b2.d >= 1,
    ensures
        rat_lt(a, b) == rat_lt(a2, b2),
{
    if rat_lt(a, b) {
        assert(a2.n * b2.d < b2.n * a2.d) by (nonlinear_arith)
            requires
                a.n * b.d < b.n * a.d,
                a.n * a2.d == a2.n * a.d,
                b.n * b2.d == b2.n * b.d,
                a.d >= 1,
                a2.d >= 1,
                b.d >= 1,
                b2.d >= 1,
        ;
    }
    if rat_lt(a2, b2) {
        assert(a.n * b.d < b.n * a.d) by (nonlinear_arith)
            requires
                a2.n * b2.d < b2.n * a2.d,
                a.n * a2.d == a2.n * a.d,
                b.n * b2.d == b2.n * b.d,
                a.d >= 1,
                a2.d >= 1,
                b.d >= 1,
                b2.d >= 1,
        ;
    }
}

} // verus!
