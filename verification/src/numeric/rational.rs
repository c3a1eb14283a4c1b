//! Rational numbers: fractions of two integers in lowest terms.

use crate::numeric::decimal::append_decimal;
use crate::numeric::decimal::decimal;
use vstd::arithmetic::div_mod::lemma_fundamental_div_mod;
use vstd::arithmetic::div_mod::lemma_mod_multiples_basic;
use vstd::arithmetic::div_mod::lemma_small_mod;
use vstd::prelude::*;
use vstd::string::StringExecFns;

verus! {

/// `d` is positive and divides both `a` and `b`.
pub open spec fn common_divisor(d: int, a: int, b: int) -> bool {
    d > 0 && a % d == 0 && b % d == 0
}

/// `g` is the greatest common divisor of `a` and `b`: it divides both, and
/// every common divisor divides it.
pub open spec fn is_gcd(g: int, a: int, b: int) -> bool {
    common_divisor(g, a, b) && forall|d: int| #[trigger] common_divisor(d, a, b) ==> g % d == 0
}

/// A multiple of `d`, read as product, leaves no remainder.
pub proof fn lemma_multiple(d: int, k: int)
    requires
        d > 0,
    ensures
        (d * k) % d == 0,
{
    lemma_mod_multiples_basic(k, d);
    assert(k * d == d * k) by (nonlinear_arith);
}

/// A number that `d` divides is `d` times its quotient.
pub proof fn lemma_quotient(d: int, n: int)
    requires
        d > 0,
        n % d == 0,
    ensures
        n == d * (n / d),
{
    lemma_fundamental_div_mod(n, d);
}

/// The common divisors of `a` and `b` are those of `b` and the remainder of
/// `a` by `b`.
pub proof fn lemma_remainder_divisors(a: int, b: int, d: int)
    requires
        a >= 0,
        b > 0,
    ensures
        common_divisor(d, a, b) <==> common_divisor(d, b, a % b),
{
    let q = a / b;
    let r = a % b;
    lemma_fundamental_div_mod(a, b);
    if d > 0 && b % d == 0 {
        lemma_quotient(d, b);
        let m = b / d;
        if a % d == 0 {
            lemma_quotient(d, a);
            let k = a / d;
            assert(r == d * (k - m * q)) by (nonlinear_arith)
                requires
                    a == d * k,
                    b == d * m,
                    a == b * q + r,
            ;
            lemma_multiple(d, k - m * q);
        }
        if r % d == 0 {
            lemma_quotient(d, r);
            let k = r / d;
            assert(a == d * (m * q + k)) by (nonlinear_arith)
                requires
                    r == d * k,
                    b == d * m,
                    a == b * q + r,
            ;
            lemma_multiple(d, m * q + k);
        }
    }
}

/// A positive number is at least each of its positive divisors.
pub proof fn lemma_divisor_bound(d: int, n: int)
    requires
        d > 0,
        n > 0,
        n % d == 0,
    ensures
        d <= n,
{
    if n < d {
        lemma_small_mod(n as nat, d as nat);
    }
}

/// Two numbers without their greatest common divisor have no common divisor
/// but one.
pub proof fn lemma_lowest_terms(n: int, d: int, g: int)
    requires
        d > 0,
        is_gcd(g, n, d),
    ensures
        (Fraction { num: n / g, den: d / g }).lowest_terms(),
        n == g * (n / g),
        d == g * (d / g),
{
    lemma_quotient(g, n);
    lemma_quotient(g, d);
    let p = n / g;
    let q = d / g;
    assert(q > 0) by (nonlinear_arith)
        requires
            d == g * q,
            d > 0,
            g > 0,
    ;
    assert forall|e: int| #[trigger] common_divisor(e, p, q) implies e == 1 by {
        lemma_quotient(e, p);
        lemma_quotient(e, q);
        let k = p / e;
        let m = q / e;
        assert(n == (e * g) * k) by (nonlinear_arith)
            requires
                n == g * p,
                p == e * k,
        ;
        assert(d == (e * g) * m) by (nonlinear_arith)
            requires
                d == g * q,
                q == e * m,
        ;
        assert(e * g >= g && (e > 1 ==> e * g > g)) by (nonlinear_arith)
            requires
                e > 0,
                g > 0,
        ;
        lemma_multiple(e * g, k);
        lemma_multiple(e * g, m);
        assert(common_divisor(e * g, n, d));
        lemma_divisor_bound(e * g, g);
    }
}

/// The greatest common divisor of two numbers that are not both zero.
fn gcd(a: u64, b: u64) -> (g: u64)
    requires
        a > 0 || b > 0,
    ensures
        is_gcd(g as int, a as int, b as int),
{
    let mut x = a;
    let mut y = b;
    while y != 0
        invariant
            x > 0 || y > 0,
            forall|d: int| #[trigger]
                common_divisor(d, x as int, y as int) <==> common_divisor(d, a as int, b as int),
        decreases y,
    {
        proof {
            assert forall|d: int| #[trigger]
                common_divisor(d, y as int, (x % y) as int) <==> common_divisor(
                    d,
                    a as int,
                    b as int,
                ) by {
                lemma_remainder_divisors(x as int, y as int, d);
                assert(common_divisor(d, x as int, y as int) <==> common_divisor(
                    d,
                    a as int,
                    b as int,
                ));
            }
        }
        let r = x % y;
        x = y;
        y = r;
    }
    proof {
        lemma_multiple(x as int, 1);
        assert(common_divisor(x as int, x as int, 0));
        assert forall|d: int| #[trigger] common_divisor(d, a as int, b as int) implies (x as int)
            % d == 0 by {
            assert(common_divisor(d, x as int, y as int));
        }
    }
    x
}

/// Mathematical model of a rational number: `num / den`.
pub struct Fraction {
    pub num: int,
    pub den: int,
}

impl Fraction {
    /// The denominator is positive, and the two have no common divisor but one.
    pub open spec fn lowest_terms(self) -> bool {
        self.den > 0 && forall|d: int| #[trigger] common_divisor(d, self.num, self.den) ==> d == 1
    }

    /// Both are the same number.
    pub open spec fn same_value(self, other: Fraction) -> bool {
        self.num * other.den == other.num * self.den
    }

    /// `self < other`, for positive denominators.
    pub open spec fn lt(self, other: Fraction) -> bool {
        self.num * other.den < other.num * self.den
    }

    /// `self <= other`, for positive denominators.
    pub open spec fn le(self, other: Fraction) -> bool {
        self.num * other.den <= other.num * self.den
    }

    /// The order of fractions with positive denominators is transitive.
    pub proof fn lemma_le_transitive(self, b: Fraction, c: Fraction)
        requires
            self.den > 0,
            b.den > 0,
            c.den > 0,
            self.le(b),
            b.le(c),
        ensures
            self.le(c),
    {
        assert(self.num * c.den <= c.num * self.den) by (nonlinear_arith)
            requires
                self.den > 0,
                b.den > 0,
                c.den > 0,
                self.num * b.den <= b.num * self.den,
                b.num * c.den <= c.num * b.den,
        ;
    }
}

/// The fraction as text: the numerator, and the denominator after a
/// stroke unless it is one, as `-3/4`.
pub open spec fn rational_text(x: Fraction) -> Seq<char> {
    (if x.num < 0 {
        "-"@
    } else {
        Seq::empty()
    }) + decimal(
        (if x.num < 0 {
            -x.num
        } else {
            x.num
        }) as nat,
    ) + (if x.den != 1 {
        "/"@ + decimal(x.den as nat)
    } else {
        Seq::empty()
    })
}

/// Rational number in lowest terms, with a positive denominator.
#[derive(Debug, Clone, Copy, PartialEq, Eq, Hash)]
pub struct Rational {
    numerator: i64,
    denominator: i64,
}

impl View for Rational {
    type V = Fraction;

    closed spec fn view(&self) -> Fraction {
        Fraction { num: self.numerator as int, den: self.denominator as int }
    }
}

impl Rational {
    /// The fraction is in lowest terms, and its numerator has a negative.
    pub open spec fn wf(&self) -> bool {
        self@.lowest_terms() && i64::MIN < self@.num <= i64::MAX && self@.den <= i64::MAX
    }

    /// `numerator / denominator` in lowest terms. There is none for a
    /// denominator of zero; the least integer of the machine is not taken
    /// as a part.
    pub fn new(numerator: i64, denominator: i64) -> (r: Option<Rational>)
        ensures
            r is Some <==> denominator != 0 && numerator > i64::MIN && denominator > i64::MIN,
            r matches Some(x) ==> x.wf() && x@.same_value(
                Fraction { num: numerator as int, den: denominator as int },
            ),
    {
        if denominator == 0 || numerator == i64::MIN || denominator == i64::MIN {
            return None;
        }
        let n: u64 = if numerator < 0 {
            (-numerator) as u64
        } else {
            numerator as u64
        };
        let d: u64 = if denominator < 0 {
            (-denominator) as u64
        } else {
            denominator as u64
        };
        let g = gcd(n, d);
        proof {
            lemma_divisor_bound(g as int, d as int);
            lemma_lowest_terms(n as int, d as int, g as int);
            assert(n / g <= n && d / g <= d) by (nonlinear_arith)
                requires
                    n == g * (n / g),
                    d == g * (d / g),
                    g > 0,
                    n / g >= 0,
                    d / g >= 0,
            ;
        }
        let p = (n / g) as i64;
        let q = (d / g) as i64;
        let negative = (numerator < 0) != (denominator < 0);
        let x = if negative {
            Rational { numerator: -p, denominator: q }
        } else {
            Rational { numerator: p, denominator: q }
        };
        proof {
            let low = Fraction { num: p as int, den: q as int };
            assert forall|e: int| #[trigger] common_divisor(e, -p as int, q as int) implies e
                == 1 by {
                lemma_quotient(e, -p as int);
                let k = (-p as int) / e;
                assert(p as int == e * (-k)) by (nonlinear_arith)
                    requires
                        -p as int == e * k,
                ;
                lemma_multiple(e, -k);
                assert(common_divisor(e, low.num, low.den));
            }
            assert(x@.same_value(Fraction { num: numerator as int, den: denominator as int }))
                by (nonlinear_arith)
                requires
                    n == g * p,
                    d == g * q,
                    x@.den == q,
                    negative ==> x@.num == -p,
                    !negative ==> x@.num == p,
                    numerator < 0 ==> n == -numerator,
                    numerator >= 0 ==> n == numerator,
                    denominator < 0 ==> d == -denominator,
                    denominator >= 0 ==> d == denominator,
                    negative == ((numerator < 0) != (denominator < 0)),
            ;
        }
        Some(x)
    }

    /// The integer `integer`.
    pub fn new_integer(integer: i64) -> (r: Rational)
        requires
            integer > i64::MIN,
        ensures
            r.wf(),
            r@ == (Fraction { num: integer as int, den: 1 }),
    {
        proof {
            assert forall|d: int| #[trigger] common_divisor(d, integer as int, 1) implies d
                == 1 by {
                lemma_divisor_bound(d, 1);
            }
        }
        Rational { numerator: integer, denominator: 1 }
    }

    /// The numerator.
    pub fn numerator(&self) -> (p: i64)
        ensures
            p == self@.num,
    {
        self.numerator
    }

    /// The denominator.
    pub fn denominator(&self) -> (q: i64)
        ensures
            q == self@.den,
    {
        self.denominator
    }

    /// Whether `self < other`.
    pub fn lt(&self, other: &Rational) -> (b: bool)
        ensures
            b == self@.lt(other@),
    {
        let a = self.numerator as i128;
        let b = other.denominator as i128;
        let c = other.numerator as i128;
        let d = self.denominator as i128;
        assert(-0x4000_0000_0000_0000_0000_0000_0000_0000 <= a * b
            <= 0x4000_0000_0000_0000_0000_0000_0000_0000) by (nonlinear_arith)
            requires
                -0x8000_0000_0000_0000 <= a <= 0x8000_0000_0000_0000,
                -0x8000_0000_0000_0000 <= b <= 0x8000_0000_0000_0000,
        ;
        assert(-0x4000_0000_0000_0000_0000_0000_0000_0000 <= c * d
            <= 0x4000_0000_0000_0000_0000_0000_0000_0000) by (nonlinear_arith)
            requires
                -0x8000_0000_0000_0000 <= c <= 0x8000_0000_0000_0000,
                -0x8000_0000_0000_0000 <= d <= 0x8000_0000_0000_0000,
        ;
        a * b < c * d
    }

    /// Whether `self <= other`.
    pub fn le(&self, other: &Rational) -> (b: bool)
        ensures
            b == self@.le(other@),
    {
        !other.lt(self)
    }

    /// Whether both are the same fraction.
    pub fn equals(&self, other: &Rational) -> (b: bool)
        ensures
            b == (self@ == other@),
    {
        self.numerator == other.numerator && self.denominator == other.denominator
    }

    /// Appends the fraction as text.
    pub fn write_to(&self, buf: &mut String)
        requires
            self.wf(),
        ensures
            final(buf)@ == old(buf)@ + rational_text(self@),
    {
        let ghost start = buf@;
        let p = self.numerator;
        if p < 0 {
            buf.append("-");
            append_decimal(buf, (-p) as u64);
        } else {
            append_decimal(buf, p as u64);
        }
        if self.denominator != 1 {
            buf.append("/");
            append_decimal(buf, self.denominator as u64);
        }
        proof {
            assert(buf@ =~= start + rational_text(self@));
        }
    }

    /// The fraction as text, as `-3/4`.
    pub fn to_string(&self) -> (text: String)
        requires
            self.wf(),
        ensures
            text@ == rational_text(self@),
    {
        let mut text = String::new();
        self.write_to(&mut text);
        proof {
            assert(Seq::<char>::empty() + rational_text(self@) =~= rational_text(self@));
        }
        text
    }
}

} // verus!
