//! Exact rational arithmetic on `i128` numerator/denominator pairs.
//!
//! A `Rational` is modelled by the mathematical fraction [`Frac`]; every
//! operation states precisely which fraction it produces and how large its
//! parts can grow, so that callers can rule out overflow.
use vstd::prelude::*;

verus! {

use vstd::arithmetic::div_mod::lemma_fundamental_div_mod;
use vstd::arithmetic::div_mod::lemma_mod_multiples_basic;
use vstd::arithmetic::div_mod::lemma_mod_bound;
use vstd::math::abs;
use vstd::math::max;

/// Mathematical model of a fraction: numerator `n` over denominator `d`.
pub struct Frac {
    pub n: int,
    pub d: int,
}

/// A fraction is well formed when its denominator is nonzero.
pub open spec fn frac_wf(f: Frac) -> bool {
    f.d != 0
}

/// Largest magnitude among numerator and denominator; at least 1 for a
/// well-formed fraction.
pub open spec fn frac_mag(f: Frac) -> int {
    max(abs(f.n) as int, abs(f.d) as int)
}

/// The fraction denoting the integer `v`.
pub open spec fn int_frac(v: int) -> Frac {
    (Frac { n: v, d: 1 })
}

/// Fraction addition as computed here: numerators combine directly over a
/// shared denominator, otherwise cross-multiplication.
pub open spec fn frac_add(a: Frac, b: Frac) -> Frac {
    if a.d == b.d {
        (Frac { n: a.n + b.n, d: a.d })
    } else {
        (Frac { n: a.n * b.d + b.n * a.d, d: a.d * b.d })
    }
}

/// Fraction subtraction, mirroring [`frac_add`].
pub open spec fn frac_sub(a: Frac, b: Frac) -> Frac {
    if a.d == b.d {
        (Frac { n: a.n - b.n, d: a.d })
    } else {
        (Frac { n: a.n * b.d - b.n * a.d, d: a.d * b.d })
    }
}

/// Fraction multiplication.
pub open spec fn frac_mul(a: Frac, b: Frac) -> Frac {
    (Frac { n: a.n * b.n, d: a.d * b.d })
}

/// Fraction division: `(a/b) / (c/d) == (a*d) / (b*c)`.
pub open spec fn frac_div(a: Frac, b: Frac) -> Frac {
    (Frac { n: a.n * b.d, d: a.d * b.n })
}

/// The integer denoted by a fraction, if it denotes one: `Some(q)` exactly
/// when `q * f.d == f.n` for some integer `q`.
pub open spec fn frac_int_value(f: Frac) -> Option<int> {
    if exists|k: int| f.n == #[trigger] (k * f.d) {
        Some(choose|k: int| f.n == #[trigger] (k * f.d))
    } else {
        None
    }
}

/// The shared-denominator shortcut in [`frac_add`] and [`frac_sub`]
/// avoids needless growth without changing the rational denoted: the
/// result cross-multiplies equal against the plainly cross-multiplied
/// form.
pub proof fn lemma_shared_denominator_shortcut(a: Frac, b: Frac)
    requires
        frac_wf(a),
        frac_wf(b),
    ensures
        frac_add(a, b).n * (a.d * b.d) == (a.n * b.d + b.n * a.d) * frac_add(a, b).d,
        frac_sub(a, b).n * (a.d * b.d) == (a.n * b.d - b.n * a.d) * frac_sub(a, b).d,
{
    if a.d == b.d {
        assert((a.n + b.n) * (a.d * b.d) == (a.n * b.d + b.n * a.d) * a.d) by (nonlinear_arith)
            requires
                a.d == b.d,
        ;
        assert((a.n - b.n) * (a.d * b.d) == (a.n * b.d - b.n * a.d) * a.d) by (nonlinear_arith)
            requires
                a.d == b.d,
        ;
    }
}

/// An integer embedded as a fraction denotes exactly itself: extracting
/// the integer value of `v / 1` gives back `v`, for every integer `v`.
pub proof fn lemma_int_round_trip(v: int)
    ensures
        frac_int_value(int_frac(v)) == Some(v),
{
    assert(v * int_frac(v).d == v) by (nonlinear_arith)
        requires
            int_frac(v).d == 1,
    ;
    assert(int_frac(v).n == v * int_frac(v).d);
    assert(exists|k: int| int_frac(v).n == #[trigger] (k * int_frac(v).d));
    let k0 = choose|k: int| int_frac(v).n == #[trigger] (k * int_frac(v).d);
    assert(k0 * 1 == k0) by (nonlinear_arith);
}

/// An exact rational number: an `i128` numerator over a nonzero `i128`
/// denominator.  Not reduced to lowest terms; exactness, not normal form,
/// is what the search needs.
#[derive(Clone, Copy, Debug)]
pub struct Rational {
    numerator: i128,
    denominator: i128,
}

impl View for Rational {
    type V = Frac;

    closed spec fn view(&self) -> Frac {
        (Frac { n: self.numerator as int, d: self.denominator as int })
    }
}

/// `|x * y| <= mx * my` whenever `|x| <= mx` and `|y| <= my`.
proof fn lemma_mul_bound(x: int, y: int, mx: int, my: int)
    requires
        -mx <= x <= mx,
        -my <= y <= my,
        0 <= mx,
        0 <= my,
    ensures
        -(mx * my) <= x * y <= mx * my,
{
    assert(-(mx * my) <= x * y <= mx * my) by (nonlinear_arith)
        requires
            -mx <= x <= mx,
            -my <= y <= my,
            0 <= mx,
            0 <= my,
    ;
}

/// A product of nonzero integers is nonzero.
proof fn lemma_nonzero_mul(x: int, y: int)
    requires
        x != 0,
        y != 0,
    ensures
        x * y != 0,
{
    assert(x * y != 0) by (nonlinear_arith)
        requires
            x != 0,
            y != 0,
    ;
}

/// For a positive divisor, a zero Euclidean remainder coincides with exact
/// divisibility, and division then recovers the cofactor.
proof fn lemma_divisible_iff(x: int, d: int)
    requires
        0 < d,
    ensures
        (x % d == 0) <==> (exists|k: int| x == #[trigger] (k * d)),
        x % d == 0 ==> x == (x / d) * d,
{
    lemma_fundamental_div_mod(x, d);
    if x % d == 0 {
        assert(x == (x / d) * d) by {
            assert(x == d * (x / d) + (x % d));
            assert(d * (x / d) == (x / d) * d) by (nonlinear_arith);
        }
        assert(exists|k: int| x == #[trigger] (k * d));
    }
    if exists|k: int| x == #[trigger] (k * d) {
        let k = choose|k: int| x == #[trigger] (k * d);
        lemma_mod_multiples_basic(k, d);
    }
}

/// The remainder of truncating division, as `checked_rem` computes it.
spec fn trunc_rem(x: int, d: int) -> int {
    if x == 0 {
        0
    } else if x > 0 && d > 0 {
        x % d
    } else if x < 0 && d < 0 {
        ((x * -1) % (d * -1)) * -1
    } else if x < 0 {
        ((x * -1) % d) * -1
    } else {
        x % (d * -1)
    }
}

/// The quotient of truncating division, as `checked_div` computes it.
spec fn trunc_quot(x: int, d: int) -> int {
    if x == 0 {
        0
    } else if x > 0 && d > 0 {
        x / d
    } else if x < 0 && d < 0 {
        (x * -1) / (d * -1)
    } else if x < 0 {
        ((x * -1) / d) * -1
    } else {
        (x / (d * -1)) * -1
    }
}

/// Truncating remainder and quotient, tied to exact divisibility: the
/// remainder vanishes exactly on multiples of `d`, and the quotient then
/// recovers the cofactor, with bounds that keep both representable.
proof fn lemma_signed_division(x: int, d: int)
    requires
        d != 0,
    ensures
        -(abs(d) as int) < trunc_rem(x, d) < abs(d) as int,
        (trunc_rem(x, d) == 0) <==> (exists|k: int| x == #[trigger] (k * d)),
        trunc_rem(x, d) == 0 ==> x == trunc_quot(x, d) * d,
        trunc_rem(x, d) == 0 && (d >= 2 || d <= -2) ==> 2 * (abs(trunc_quot(x, d)) as int) <= abs(
            x,
        ) as int,
        trunc_rem(x, d) == 0 && d == 1 ==> trunc_quot(x, d) == x,
        trunc_rem(x, d) == 0 && d == -1 ==> trunc_quot(x, d) == -x,
{
    let xa = abs(x) as int;
    let da = abs(d) as int;
    lemma_divisible_iff(xa, da);
    lemma_mod_bound(xa, da);
    let r0 = xa % da;
    assert(trunc_rem(x, d) == r0 || trunc_rem(x, d) == -r0) by {
        if x == 0 {
            assert(xa == 0 * da) by (nonlinear_arith)
                requires
                    xa == 0,
            ;
            assert(r0 == 0);
        } else if x > 0 && d > 0 {
            assert(xa == x && da == d);
        } else if x < 0 && d < 0 {
            assert(x * -1 == xa && d * -1 == da);
        } else if x < 0 {
            assert(x * -1 == xa && da == d);
        } else {
            assert(xa == x && d * -1 == da);
        }
    }
    if exists|k: int| x == #[trigger] (k * d) {
        let k = choose|k: int| x == #[trigger] (k * d);
        assert(xa == k * da || xa == (-k) * da) by (nonlinear_arith)
            requires
                x == k * d,
                xa == if x < 0 {
                    -x
                } else {
                    x
                },
                da == if d < 0 {
                    -d
                } else {
                    d
                },
        ;
        assert(r0 == 0);
    }
    if trunc_rem(x, d) == 0 {
        assert(r0 == 0);
        let q0 = xa / da;
        assert(xa == q0 * da);
        assert(0 <= q0) by (nonlinear_arith)
            requires
                xa == q0 * da,
                0 <= xa,
                0 < da,
        ;
        let tq = trunc_quot(x, d);
        if x == 0 {
            assert(tq * d == 0) by (nonlinear_arith)
                requires
                    tq == 0,
            ;
        } else if x > 0 && d > 0 {
            assert(tq == q0);
        } else if x < 0 && d < 0 {
            assert(tq == q0);
            assert(q0 * d == -(q0 * da)) by (nonlinear_arith)
                requires
                    d == -da,
            ;
        } else if x < 0 {
            assert(tq == -q0);
            assert((-q0) * d == -(q0 * da)) by (nonlinear_arith)
                requires
                    d == da,
            ;
        } else {
            assert(tq == -q0);
            assert((-q0) * d == q0 * da) by (nonlinear_arith)
                requires
                    d == -da,
            ;
        }
        assert(x == tq * d);
        assert(exists|k: int| x == #[trigger] (k * d));
        if d >= 2 || d <= -2 {
            assert(2 * q0 <= q0 * da) by (nonlinear_arith)
                requires
                    0 <= q0,
                    2 <= da,
            ;
            assert(abs(tq) as int == q0);
        }
        if d == 1 || d == -1 {
            assert(q0 * da == q0) by (nonlinear_arith)
                requires
                    da == 1,
            ;
            assert(q0 == xa);
        }
    }
}

/// `q` is pinned by `q * d == x` when `d != 0`.
proof fn lemma_quotient_unique(x: int, d: int, q1: int, q2: int)
    requires
        d != 0,
        x == q1 * d,
        x == q2 * d,
    ensures
        q1 == q2,
{
    assert(q1 == q2) by (nonlinear_arith)
        requires
            d != 0,
            q1 * d == q2 * d,
    ;
}

impl Rational {
    /// The integer `value` as the fraction `value / 1`.
    pub fn from_int(value: i128) -> (r: Self)
        ensures
            r@ == int_frac(value as int),
            frac_wf(r@),
    {
        Self { numerator: value, denominator: 1 }
    }

    /// Exact sum; the result's parts grow by at most the product of the
    /// operands' magnitudes, doubled.
    pub fn add(&self, other: &Rational) -> (r: Self)
        requires
            frac_wf(self@),
            frac_wf(other@),
            2 * frac_mag(self@) * frac_mag(other@) <= i128::MAX,
        ensures
            r@ == frac_add(self@, other@),
            frac_wf(r@),
            frac_mag(r@) <= 2 * frac_mag(self@) * frac_mag(other@),
    {
        let a = self.numerator;
        let b = self.denominator;
        let c = other.numerator;
        let d = other.denominator;
        proof {
            let m1 = frac_mag(self@);
            let m2 = frac_mag(other@);
            lemma_mul_bound(a as int, d as int, m1, m2);
            lemma_mul_bound(c as int, b as int, m2, m1);
            lemma_mul_bound(b as int, d as int, m1, m2);
            lemma_nonzero_mul(b as int, d as int);
            assert(c as int * (b as int) == b as int * (c as int)) by (nonlinear_arith);
            assert(m1 * m2 == m2 * m1) by (nonlinear_arith);
            assert(2 * (m1 * m2) == 2 * m1 * m2) by (nonlinear_arith);
            assert(m1 + m2 <= 2 * m1 * m2 && m1 * m2 <= 2 * m1 * m2 && 0 <= m1 * m2)
                by (nonlinear_arith)
                requires
                    1 <= m1,
                    1 <= m2,
            ;
        }
        if b == d {
            Self { numerator: a + c, denominator: b }
        } else {
            Self { numerator: a * d + c * b, denominator: b * d }
        }
    }

    /// Exact difference; same growth bound as [`Rational::add`].
    pub fn sub(&self, other: &Rational) -> (r: Self)
        requires
            frac_wf(self@),
            frac_wf(other@),
            2 * frac_mag(self@) * frac_mag(other@) <= i128::MAX,
        ensures
            r@ == frac_sub(self@, other@),
            frac_wf(r@),
            frac_mag(r@) <= 2 * frac_mag(self@) * frac_mag(other@),
    {
        let a = self.numerator;
        let b = self.denominator;
        let c = other.numerator;
        let d = other.denominator;
        proof {
            let m1 = frac_mag(self@);
            let m2 = frac_mag(other@);
            lemma_mul_bound(a as int, d as int, m1, m2);
            lemma_mul_bound(c as int, b as int, m2, m1);
            lemma_mul_bound(b as int, d as int, m1, m2);
            lemma_nonzero_mul(b as int, d as int);
            assert(c as int * (b as int) == b as int * (c as int)) by (nonlinear_arith);
            assert(m1 * m2 == m2 * m1) by (nonlinear_arith);
            assert(2 * (m1 * m2) == 2 * m1 * m2) by (nonlinear_arith);
            assert(m1 + m2 <= 2 * m1 * m2 && m1 * m2 <= 2 * m1 * m2 && 0 <= m1 * m2)
                by (nonlinear_arith)
                requires
                    1 <= m1,
                    1 <= m2,
            ;
        }
        if b == d {
            Self { numerator: a - c, denominator: b }
        } else {
            Self { numerator: a * d - c * b, denominator: b * d }
        }
    }

    /// Exact product; same growth bound as [`Rational::add`].
    pub fn mul(&self, other: &Rational) -> (r: Self)
        requires
            frac_wf(self@),
            frac_wf(other@),
            2 * frac_mag(self@) * frac_mag(other@) <= i128::MAX,
        ensures
            r@ == frac_mul(self@, other@),
            frac_wf(r@),
            frac_mag(r@) <= 2 * frac_mag(self@) * frac_mag(other@),
    {
        let a = self.numerator;
        let b = self.denominator;
        let c = other.numerator;
        let d = other.denominator;
        proof {
            let m1 = frac_mag(self@);
            let m2 = frac_mag(other@);
            lemma_mul_bound(a as int, c as int, m1, m2);
            lemma_mul_bound(b as int, d as int, m1, m2);
            lemma_nonzero_mul(b as int, d as int);
            assert(m1 * m2 <= 2 * m1 * m2 && 0 <= m1 * m2) by (nonlinear_arith)
                requires
                    1 <= m1,
                    1 <= m2,
            ;
        }
        Self { numerator: a * c, denominator: b * d }
    }

    /// Exact quotient, for a divisor already known to be nonzero.
    pub fn div_unchecked(&self, other: &Rational) -> (r: Self)
        requires
            frac_wf(self@),
            frac_wf(other@),
            other@.n != 0,
            2 * frac_mag(self@) * frac_mag(other@) <= i128::MAX,
        ensures
            r@ == frac_div(self@, other@),
            frac_wf(r@),
            frac_mag(r@) <= 2 * frac_mag(self@) * frac_mag(other@),
    {
        let a = self.numerator;
        let b = self.denominator;
        let c = other.numerator;
        let d = other.denominator;
        proof {
            let m1 = frac_mag(self@);
            let m2 = frac_mag(other@);
            lemma_mul_bound(a as int, d as int, m1, m2);
            lemma_mul_bound(b as int, c as int, m1, m2);
            lemma_nonzero_mul(b as int, c as int);
            assert(m1 * m2 <= 2 * m1 * m2 && 0 <= m1 * m2) by (nonlinear_arith)
                requires
                    1 <= m1,
                    1 <= m2,
            ;
        }
        Self { numerator: a * d, denominator: b * c }
    }

    /// Division that rejects a zero divisor: `None` exactly when `other`
    /// denotes zero.
    pub fn div(&self, other: &Rational) -> (r: Option<Self>)
        requires
            frac_wf(self@),
            frac_wf(other@),
            2 * frac_mag(self@) * frac_mag(other@) <= i128::MAX,
        ensures
            r is None <==> other@.n == 0,
            r matches Some(q) ==> q@ == frac_div(self@, other@) && frac_wf(q@) && frac_mag(q@)
                <= 2 * frac_mag(self@) * frac_mag(other@),
    {
        if other.is_zero() {
            return None;
        }
        Some(self.div_unchecked(other))
    }

    /// True exactly when the fraction denotes zero.
    pub fn is_zero(&self) -> (r: bool)
        ensures
            r == (self@.n == 0),
    {
        self.numerator == 0
    }

    /// The integer this fraction denotes, if any: `Some(q)` exactly when
    /// the denominator divides the numerator, with `q * d == n`.
    ///
    /// The one unrepresentable divisible case, `i128::MIN / -1`, is ruled
    /// out by precondition: its value does not fit in `i128`.
    pub fn evaluate_int(&self) -> (r: Option<i128>)
        requires
            frac_wf(self@),
            !(self@.n == i128::MIN && self@.d == -1),
        ensures
            r matches Some(q) ==> self@.n == q * self@.d,
            r is None ==> frac_int_value(self@) is None,
            r matches Some(q) ==> frac_int_value(self@) == Some(q as int),
    {
        let a = self.numerator;
        let b = self.denominator;
        let ghost x = a as int;
        let ghost d = b as int;
        proof {
            lemma_signed_division(x, d);
        }
        let rem = match a.checked_rem(b) {
            Some(rm) => rm,
            None => {
                proof {
                    assert(false);
                }
                return None;
            },
        };
        proof {
            assert(rem as int == trunc_rem(x, d));
        }
        if rem != 0 {
            return None;
        }
        let q = match a.checked_div(b) {
            Some(q) => q,
            None => {
                proof {
                    assert(false);
                }
                return None;
            },
        };
        proof {
            assert(q as int == trunc_quot(x, d));
            assert(x == (q as int) * d);
            let k0 = choose|k: int| x == #[trigger] (k * d);
            lemma_quotient_unique(x, d, k0, q as int);
        }
        Some(q)
    }
}

} // verus!
