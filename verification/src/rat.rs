//! Exact rational numbers with 64-bit numerator and denominator.
//!
//! A [`Rat`] is always held in lowest terms with a positive denominator, so
//! two of them denote the same number exactly when their fields agree. The
//! arithmetic itself is done by `num_rational`, on 128-bit ratios in which no
//! intermediate value can overflow; an operation whose exact result has no
//! 64-bit representation returns `None`.
use num_rational::Ratio;
use num_traits::identities::{One, Zero};
use vstd::prelude::*;

verus! {

/// The fraction `n / d` as a real number.
pub open spec fn frac(n: int, d: int) -> real {
    n as real / d as real
}

/// `n / d` has a positive denominator and no fraction with a smaller positive
/// denominator denotes the same number.
pub open spec fn lowest_terms(n: int, d: int) -> bool {
    &&& d > 0
    &&& forall|m: int, e: int| e > 0 && #[trigger] frac(m, e) == frac(n, d) ==> d <= e
}

/// The number `v` can be written with a 64-bit numerator and a positive
/// 64-bit denominator.
pub open spec fn fits(v: real) -> bool {
    exists|n: i64, d: i64| d > 0 && v == #[trigger] frac(n as int, d as int)
}

/// A rational number in lowest terms.
#[derive(Clone, Copy, Debug, PartialEq, Eq, Hash, Structural)]
pub struct Rat {
    pub num: i64,
    pub den: i64,
}

/// Two fractions with positive denominators are equal exactly when their
/// cross products are.
pub proof fn lemma_frac_eq(a: int, b: int, c: int, d: int)
    requires
        b > 0,
        d > 0,
    ensures
        (frac(a, b) == frac(c, d)) <==> (a * d == c * b),
{
    assert((frac(a, b) == frac(c, d)) <==> (a * d == c * b)) by (nonlinear_arith)
        requires
            b > 0,
            d > 0,
    ;
}

/// A number has at most one representation in lowest terms.
pub proof fn lemma_lowest_unique(a: int, b: int, c: int, d: int)
    requires
        lowest_terms(a, b),
        lowest_terms(c, d),
        frac(a, b) == frac(c, d),
    ensures
        a == c,
        b == d,
{
    assert(frac(c, d) == frac(a, b));
    assert(b <= d);
    assert(d <= b);
    lemma_frac_eq(a, b, c, d);
    assert(a == c) by (nonlinear_arith)
        requires
            a * d == c * b,
            b == d,
            b > 0,
    ;
}

/// The lowest-terms form of a number that fits in 64 bits fits in 64 bits.
proof fn lemma_lowest_fits(n: int, d: int)
    requires
        lowest_terms(n, d),
        fits(frac(n, d)),
    ensures
        i64::MIN <= n <= i64::MAX,
        0 < d <= i64::MAX,
{
    let (m, e): (i64, i64) = choose|m: i64, e: i64|
        e > 0 && frac(n, d) == #[trigger] frac(m as int, e as int);
    let mi = m as int;
    let ei = e as int;
    assert(frac(mi, ei) == frac(n, d));
    assert(d <= ei);
    lemma_frac_eq(mi, ei, n, d);
    assert(i64::MIN <= n <= i64::MAX) by (nonlinear_arith)
        requires
            mi * d == n * ei,
            0 < d <= ei,
            i64::MIN <= mi <= i64::MAX,
    {
        if n > mi && mi >= 0 {
            assert(n * ei > mi * ei);
            assert(mi * ei >= mi * d);
        }
        if n < mi && mi <= 0 {
            assert(n * ei < mi * ei);
            assert(mi * ei <= mi * d);
        }
        if mi >= 0 && n < 0 {
            assert(n * ei < 0);
            assert(mi * d >= 0);
        }
        if mi <= 0 && n > 0 {
            assert(n * ei > 0);
            assert(mi * d <= 0);
        }
    }
}

/// `Ratio::new` on 128-bit integers: the lowest-terms form of `n / d`.
#[verifier::external_body]
fn ratio_new(n: i64, d: i64) -> (r: (i128, i128))
    requires
        d != 0,
    ensures
        lowest_terms(r.0 as int, r.1 as int),
        frac(r.0 as int, r.1 as int) == frac(n as int, d as int),
{
    let q = Ratio::<i128>::new(n as i128, d as i128);
    (*q.numer(), *q.denom())
}

/// `Ratio`'s `+` on 128-bit integers: the sum of two 64-bit ratios, in lowest
/// terms.
#[verifier::external_body]
fn ratio_add(a: Rat, b: Rat) -> (r: (i128, i128))
    requires
        a.den > 0,
        b.den > 0,
    ensures
        lowest_terms(r.0 as int, r.1 as int),
        frac(r.0 as int, r.1 as int) == a@ + b@,
{
    let q = Ratio::<i128>::new_raw(a.num as i128, a.den as i128) + Ratio::<i128>::new_raw(
        b.num as i128,
        b.den as i128,
    );
    (*q.numer(), *q.denom())
}

/// `Ratio`'s `-` on 128-bit integers: the difference of two 64-bit ratios,
/// in lowest terms.
#[verifier::external_body]
fn ratio_sub(a: Rat, b: Rat) -> (r: (i128, i128))
    requires
        a.den > 0,
        b.den > 0,
    ensures
        lowest_terms(r.0 as int, r.1 as int),
        frac(r.0 as int, r.1 as int) == a@ - b@,
{
    let q = Ratio::<i128>::new_raw(a.num as i128, a.den as i128) - Ratio::<i128>::new_raw(
        b.num as i128,
        b.den as i128,
    );
    (*q.numer(), *q.denom())
}

/// `Ratio`'s `*` on 128-bit integers: the product of two 64-bit ratios, in
/// lowest terms.
#[verifier::external_body]
fn ratio_mul(a: Rat, b: Rat) -> (r: (i128, i128))
    requires
        a.den > 0,
        b.den > 0,
    ensures
        lowest_terms(r.0 as int, r.1 as int),
        frac(r.0 as int, r.1 as int) == a@ * b@,
{
    let q = Ratio::<i128>::new_raw(a.num as i128, a.den as i128) * Ratio::<i128>::new_raw(
        b.num as i128,
        b.den as i128,
    );
    (*q.numer(), *q.denom())
}

/// `Ratio`'s `/` on 128-bit integers: the quotient of two 64-bit ratios, the
/// second of them not zero, in lowest terms.
#[verifier::external_body]
fn ratio_div(a: Rat, b: Rat) -> (r: (i128, i128))
    requires
        a.den > 0,
        b.den > 0,
        b.num != 0,
    ensures
        lowest_terms(r.0 as int, r.1 as int),
        frac(r.0 as int, r.1 as int) == a@ / b@,
{
    let q = Ratio::<i128>::new_raw(a.num as i128, a.den as i128) / Ratio::<i128>::new_raw(
        b.num as i128,
        b.den as i128,
    );
    (*q.numer(), *q.denom())
}

/// `Ratio`'s unary `-` on 128-bit integers: the numerator changes sign, the
/// denominator stays.
#[verifier::external_body]
fn ratio_neg(a: Rat) -> (r: (i128, i128))
    ensures
        r.0 == -(a.num as int),
        r.1 == a.den,
{
    let q = -Ratio::<i128>::new_raw(a.num as i128, a.den as i128);
    (*q.numer(), *q.denom())
}

/// `Ratio`'s `<` on two ratios with positive denominators.
#[verifier::external_body]
fn ratio_lt(a: Rat, b: Rat) -> (r: bool)
    requires
        a.den > 0,
        b.den > 0,
    ensures
        r == (a@ < b@),
{
    Ratio::<i64>::new_raw(a.num, a.den) < Ratio::<i64>::new_raw(b.num, b.den)
}

/// `Ratio`'s `==` on two ratios with positive denominators.
#[verifier::external_body]
fn ratio_eq(a: Rat, b: Rat) -> (r: bool)
    requires
        a.den > 0,
        b.den > 0,
    ensures
        r == (a@ == b@),
{
    Ratio::<i64>::new_raw(a.num, a.den) == Ratio::<i64>::new_raw(b.num, b.den)
}

/// `Zero::is_zero` of a ratio: whether its numerator is zero.
#[verifier::external_body]
fn ratio_is_zero(a: Rat) -> (r: bool)
    ensures
        r == (a.num == 0),
{
    Ratio::<i64>::new_raw(a.num, a.den).is_zero()
}

/// `Zero::zero` of `Ratio<i64>`: the ratio `0 / 1`.
#[verifier::external_body]
fn ratio_zero() -> (r: (i64, i64))
    ensures
        r == (0i64, 1i64),
{
    let q: Ratio<i64> = Zero::zero();
    (*q.numer(), *q.denom())
}

/// `One::one` of `Ratio<i64>`: the ratio `1 / 1`.
#[verifier::external_body]
fn ratio_one() -> (r: (i64, i64))
    ensures
        r == (1i64, 1i64),
{
    let q: Ratio<i64> = One::one();
    (*q.numer(), *q.denom())
}

/// Narrows a lowest-terms pair to 64 bits where the number fits.
fn narrow(r: (i128, i128)) -> (out: Option<Rat>)
    requires
        lowest_terms(r.0 as int, r.1 as int),
    ensures
        out.is_some() <==> fits(frac(r.0 as int, r.1 as int)),
        out matches Some(q) ==> q.wf() && q@ == frac(r.0 as int, r.1 as int),
{
    if r.0 >= -0x8000_0000_0000_0000i128 && r.0 <= 0x7fff_ffff_ffff_ffffi128 && r.1
        <= 0x7fff_ffff_ffff_ffffi128 {
        let q = Rat { num: r.0 as i64, den: r.1 as i64 };
        assert(frac(q.num as int, q.den as int) == frac(r.0 as int, r.1 as int));
        Some(q)
    } else {
        proof {
            if fits(frac(r.0 as int, r.1 as int)) {
                lemma_lowest_fits(r.0 as int, r.1 as int);
            }
        }
        None
    }
}

impl Rat {
    /// The representation invariant: lowest terms, positive denominator.
    pub open spec fn wf(self) -> bool {
        lowest_terms(self.num as int, self.den as int)
    }

    /// The number denoted.
    pub open spec fn view(self) -> real {
        frac(self.num as int, self.den as int)
    }

    /// Two well-formed values denote the same number only if they are the
    /// same value.
    pub proof fn lemma_view_injective(self, other: Rat)
        requires
            self.wf(),
            other.wf(),
            self@ == other@,
        ensures
            self == other,
    {
        lemma_lowest_unique(self.num as int, self.den as int, other.num as int, other.den as int);
    }

    /// Every well-formed value fits.
    pub proof fn lemma_fits(self)
        requires
            self.wf(),
        ensures
            fits(self@),
    {
        assert(self@ == frac(self.num as int, self.den as int));
    }

    /// The fraction `num / den` in lowest terms; `None` when `den` is zero
    /// or the lowest-terms form does not fit in 64 bits.
    pub fn new(num: i64, den: i64) -> (out: Option<Rat>)
        ensures
            out.is_some() <==> den != 0 && fits(frac(num as int, den as int)),
            out matches Some(q) ==> q.wf() && q@ == frac(num as int, den as int),
    {
        if den == 0 {
            None
        } else {
            narrow(ratio_new(num, den))
        }
    }

    /// The integer `n`.
    pub fn from_int(n: i64) -> (q: Rat)
        ensures
            q.wf(),
            q@ == n as real,
            q.num == n,
            q.den == 1,
    {
        let q = Rat { num: n, den: 1 };
        assert(q@ == n as real) by (nonlinear_arith)
            requires
                q@ == n as real / 1 as real,
        ;
        assert(q.wf());
        q
    }

    /// The number zero.
    pub fn zero() -> (q: Rat)
        ensures
            q.wf(),
            q@ == 0 as real,
            q == (Rat { num: 0, den: 1 }),
    {
        let r = ratio_zero();
        let q = Rat { num: r.0, den: r.1 };
        assert(q@ == 0 as real) by (nonlinear_arith)
            requires
                q@ == 0 as real / 1 as real,
        ;
        q
    }

    /// The number one.
    pub fn one() -> (q: Rat)
        ensures
            q.wf(),
            q@ == 1 as real,
            q == (Rat { num: 1, den: 1 }),
    {
        let r = ratio_one();
        let q = Rat { num: r.0, den: r.1 };
        assert(q@ == 1 as real) by (nonlinear_arith)
            requires
                q@ == 1 as real / 1 as real,
        ;
        q
    }

    /// Whether the number is zero.
    pub fn is_zero(&self) -> (b: bool)
        requires
            self.wf(),
        ensures
            b == (self@ == 0 as real),
    {
        let b = ratio_is_zero(*self);
        proof {
            let n = self.num as int;
            let d = self.den as int;
            assert((frac(n, d) == 0 as real) <==> n == 0) by (nonlinear_arith)
                requires
                    d > 0,
            ;
        }
        b
    }

    /// Whether two values denote the same number.
    pub fn equals(&self, other: &Rat) -> (b: bool)
        requires
            self.wf(),
            other.wf(),
        ensures
            b == (self@ == other@),
            b == (*self == *other),
    {
        let b = ratio_eq(*self, *other);
        proof {
            if b {
                self.lemma_view_injective(*other);
            }
        }
        b
    }

    /// Whether `self` is strictly below `other`.
    pub fn lt(&self, other: &Rat) -> (b: bool)
        requires
            self.wf(),
            other.wf(),
        ensures
            b == (self@ < other@),
    {
        ratio_lt(*self, *other)
    }

    /// The sum, where it fits in 64 bits.
    pub fn add(&self, other: &Rat) -> (out: Option<Rat>)
        requires
            self.wf(),
            other.wf(),
        ensures
            out.is_some() <==> fits(self@ + other@),
            out matches Some(q) ==> q.wf() && q@ == self@ + other@,
    {
        narrow(ratio_add(*self, *other))
    }

    /// The difference, where it fits in 64 bits.
    pub fn sub(&self, other: &Rat) -> (out: Option<Rat>)
        requires
            self.wf(),
            other.wf(),
        ensures
            out.is_some() <==> fits(self@ - other@),
            out matches Some(q) ==> q.wf() && q@ == self@ - other@,
    {
        narrow(ratio_sub(*self, *other))
    }

    /// The product, where it fits in 64 bits.
    pub fn mul(&self, other: &Rat) -> (out: Option<Rat>)
        requires
            self.wf(),
            other.wf(),
        ensures
            out.is_some() <==> fits(self@ * other@),
            out matches Some(q) ==> q.wf() && q@ == self@ * other@,
    {
        narrow(ratio_mul(*self, *other))
    }

    /// The quotient by a number that is not zero, where it fits in 64 bits.
    pub fn div(&self, other: &Rat) -> (out: Option<Rat>)
        requires
            self.wf(),
            other.wf(),
            other@ != 0 as real,
        ensures
            out.is_some() <==> fits(self@ / other@),
            out matches Some(q) ==> q.wf() && q@ == self@ / other@,
    {
        proof {
            let n = other.num as int;
            let d = other.den as int;
            assert((frac(n, d) == 0 as real) <==> n == 0) by (nonlinear_arith)
                requires
                    d > 0,
            ;
        }
        narrow(ratio_div(*self, *other))
    }

    /// The negation, where it fits in 64 bits.
    pub fn neg(&self) -> (out: Option<Rat>)
        requires
            self.wf(),
        ensures
            out.is_some() <==> fits(-self@),
            out matches Some(q) ==> q.wf() && q@ == -self@,
    {
        let r = ratio_neg(*self);
        proof {
            let n = self.num as int;
            let d = self.den as int;
            assert(frac(-n, d) == -frac(n, d)) by (nonlinear_arith)
                requires
                    d > 0,
            ;
            assert forall|m: int, e: int| e > 0 && #[trigger] frac(m, e) == frac(-n, d) implies d
                <= e by {
                assert(frac(-m, e) == -frac(m, e)) by (nonlinear_arith)
                    requires
                        e > 0,
                ;
                assert(frac(-m, e) == frac(n, d));
            }
        }
        narrow(r)
    }
}

} // verus!
