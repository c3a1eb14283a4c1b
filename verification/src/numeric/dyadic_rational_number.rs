//! Dyadic rationals: fractions whose denominator is a power of two.

use vstd::arithmetic::power2::lemma_pow2_pos;
use vstd::arithmetic::power2::lemma_pow2_unfold;
use vstd::arithmetic::power2::pow2;
use crate::short::partizan::game_form::Order;
use crate::numeric::decimal::append_decimal;
use crate::numeric::decimal::decimal;
use vstd::prelude::*;
use vstd::string::StringExecFns;

verus! {

/// The largest exponent of a denominator that is kept.
pub const MAX_EXPONENT: u32 = 62;

/// Mathematical model of a dyadic rational: `num / 2^exp`.
pub struct Dyadic {
    pub num: int,
    pub exp: nat,
}

impl Dyadic {
    /// The fraction is in lowest terms.
    pub open spec fn normal(self) -> bool {
        self.exp == 0 || self.num % 2 != 0
    }

    /// The same number in lowest terms.
    pub open spec fn reduce(self) -> Dyadic
        decreases self.exp,
    {
        if self.exp > 0 && self.num % 2 == 0 {
            (Dyadic { num: self.num / 2, exp: (self.exp - 1) as nat }).reduce()
        } else {
            self
        }
    }

    /// The numerator of the same number over the denominator `2^e`, for `e >= exp`.
    pub open spec fn scaled(self, e: nat) -> int {
        self.num * pow2((e - self.exp) as nat)
    }

    /// The larger of the two exponents.
    pub open spec fn common_exp(self, other: Dyadic) -> nat {
        if self.exp >= other.exp {
            self.exp
        } else {
            other.exp
        }
    }

    /// The integer `n`.
    pub open spec fn from_int(n: int) -> Dyadic {
        Dyadic { num: n, exp: 0 }
    }

    /// Sum, in lowest terms.
    pub open spec fn add(self, other: Dyadic) -> Dyadic {
        let e = self.common_exp(other);
        (Dyadic { num: self.scaled(e) + other.scaled(e), exp: e }).reduce()
    }

    /// The number half way between the two, in lowest terms.
    pub open spec fn mean(self, other: Dyadic) -> Dyadic {
        let e = self.common_exp(other);
        (Dyadic { num: self.scaled(e) + other.scaled(e), exp: e + 1 }).reduce()
    }

    /// Negative.
    pub open spec fn neg(self) -> Dyadic {
        Dyadic { num: -self.num, exp: self.exp }
    }

    /// Difference, in lowest terms.
    pub open spec fn sub(self, other: Dyadic) -> Dyadic {
        self.add(other.neg())
    }

    /// Strictly less, as rationals.
    pub open spec fn lt(self, other: Dyadic) -> bool {
        let e = self.common_exp(other);
        self.scaled(e) < other.scaled(e)
    }

    /// Less or equal, as rationals.
    pub open spec fn le(self, other: Dyadic) -> bool {
        let e = self.common_exp(other);
        self.scaled(e) <= other.scaled(e)
    }

    /// Which of the two numbers is larger, as rationals.
    pub open spec fn order(self, other: Dyadic) -> Order {
        if self.lt(other) {
            Order::Less
        } else if other.lt(self) {
            Order::Greater
        } else {
            Order::Equal
        }
    }

    /// Whether the number is at least as simple as `other`: its denominator
    /// is smaller, or the same with a numerator that is no larger in absolute value.
    pub open spec fn simpler_or_equal(self, other: Dyadic) -> bool {
        self.exp < other.exp || (self.exp == other.exp && magnitude(self.num) <= magnitude(
            other.num,
        ))
    }

    /// Whether the number lies strictly between `lo` and `hi`.
    pub open spec fn between(self, lo: Dyadic, hi: Dyadic) -> bool {
        lo.lt(self) && self.lt(hi)
    }

    /// Whether the number is the simplest one strictly between `lo` and
    /// `hi`: the integer of least absolute value, if there is an integer
    /// between them; else the number with the least denominator.
    pub open spec fn is_simplest_between(self, lo: Dyadic, hi: Dyadic) -> bool {
        &&& self.normal()
        &&& self.between(lo, hi)
        &&& forall|y: Dyadic| y.normal() && #[trigger] y.between(lo, hi) ==> self.simpler_or_equal(y)
    }

    /// Whether the number is an integer (for a number in lowest terms).
    pub open spec fn is_integer(self) -> bool {
        self.exp == 0
    }

    /// The greatest integer that is not above the number.
    pub open spec fn floor(self) -> int {
        self.num / (pow2(self.exp) as int)
    }

    /// The least integer that is not below the number.
    pub open spec fn ceil(self) -> int {
        -((-self.num) / (pow2(self.exp) as int))
    }

    /// The number can be stored: its numerator can be negated in 64 bits and
    /// its exponent is at most `MAX_EXPONENT`.
    pub open spec fn fits(self) -> bool {
        &&& -i64::MAX <= self.num <= i64::MAX
        &&& self.exp <= MAX_EXPONENT
    }

    /// Reducing yields lowest terms, keeps zero and sign, and does not grow
    /// the numerator or the exponent.
    pub proof fn lemma_reduce(self)
        ensures
            self.reduce().normal(),
            self.reduce().exp <= self.exp,
            self.reduce().num * pow2((self.exp - self.reduce().exp) as nat) == self.num,
            self.normal() ==> self.reduce() == self,
            self.num >= 0 ==> 0 <= self.reduce().num <= self.num,
            self.num <= 0 ==> self.num <= self.reduce().num <= 0,
        decreases self.exp,
    {
        lemma_pow2_unfold(1);
        assert(pow2(0) == 1) by {
            vstd::arithmetic::power2::lemma2_to64();
        }
        if self.exp > 0 && self.num % 2 == 0 {
            let half = Dyadic { num: self.num / 2, exp: (self.exp - 1) as nat };
            half.lemma_reduce();
            let r = half.reduce();
            let d = (half.exp - r.exp) as nat;
            lemma_pow2_unfold((d + 1) as nat);
            lemma_pow2_pos(d);
            let d1 = (d + 1) as nat;
            assert(r.num * pow2(d1) == self.num) by (nonlinear_arith)
                requires
                    r.num * pow2(d) == self.num / 2,
                    pow2(d1) == 2 * pow2(d),
                    self.num % 2 == 0,
            ;
            assert(self.reduce() == r);
            assert((self.exp - r.exp) as nat == d1);
        } else {
            assert(self.reduce() == self);
            assert(self.num * pow2(0) == self.num);
        }
    }

    /// The negative of the reduced number is the reduced negative.
    pub proof fn lemma_reduce_neg(self)
        ensures
            self.neg().reduce() == self.reduce().neg(),
        decreases self.exp,
    {
        if self.exp > 0 && self.num % 2 == 0 {
            let half = Dyadic { num: self.num / 2, exp: (self.exp - 1) as nat };
            half.lemma_reduce_neg();
            assert((-self.num) % 2 == 0 && (-self.num) / 2 == -(self.num / 2));
            assert(self.neg().reduce() == half.neg().reduce());
        } else if self.exp > 0 {
            assert((-self.num) % 2 != 0);
        }
    }

    /// Scaling to a larger denominator multiplies the numerator by a power of two.
    pub proof fn lemma_scaled(self, e1: nat, e2: nat)
        requires
            self.exp <= e1 <= e2,
        ensures
            self.scaled(e2) == self.scaled(e1) * pow2((e2 - e1) as nat),
            pow2((e2 - e1) as nat) > 0,
    {
        let a = (e1 - self.exp) as nat;
        let b = (e2 - e1) as nat;
        vstd::arithmetic::power2::lemma_pow2_adds(a, b);
        lemma_pow2_pos(b);
        assert(self.num * (pow2(a) * pow2(b)) == (self.num * pow2(a)) * pow2(b))
            by (nonlinear_arith);
    }

    /// At its own denominator a number reads as its numerator.
    pub proof fn lemma_scaled_self(self)
        ensures
            self.scaled(self.exp) == self.num,
    {
        assert(pow2(0) == 1) by {
            vstd::arithmetic::power2::lemma2_to64();
        }
        assert(self.num * 1 == self.num);
    }

    /// Numbers with the same denominator are ordered by their numerators.
    pub proof fn lemma_order_same_exp(self, other: Dyadic)
        requires
            self.exp == other.exp,
        ensures
            self.le(other) <==> self.num <= other.num,
            self.lt(other) <==> self.num < other.num,
    {
        self.lemma_scaled_self();
        other.lemma_scaled_self();
    }

    /// Negation turns the order of numbers round.
    pub proof fn lemma_order_neg(self, other: Dyadic)
        ensures
            self.lt(other) <==> other.neg().lt(self.neg()),
            self.le(other) <==> other.neg().le(self.neg()),
    {
        let e = self.common_exp(other);
        let p = pow2((e - self.exp) as nat);
        let q = pow2((e - other.exp) as nat);
        assert((-self.num) * p == -(self.num * p)) by (nonlinear_arith);
        assert((-other.num) * q == -(other.num * q)) by (nonlinear_arith);
    }

    /// The order of two numbers can be read at any common denominator.
    pub proof fn lemma_order_at(self, other: Dyadic, e: nat)
        requires
            self.exp <= e,
            other.exp <= e,
        ensures
            self.le(other) <==> self.scaled(e) <= other.scaled(e),
            self.lt(other) <==> self.scaled(e) < other.scaled(e),
    {
        let c = self.common_exp(other);
        self.lemma_scaled(c, e);
        other.lemma_scaled(c, e);
        let p = pow2((e - c) as nat) as int;
        let a = self.scaled(c);
        let b = other.scaled(c);
        assert((a <= b) <==> (a * p <= b * p)) by (nonlinear_arith)
            requires
                p > 0,
        ;
        assert((a < b) <==> (a * p < b * p)) by (nonlinear_arith)
            requires
                p > 0,
        ;
    }

    /// A number and its lowest terms read the same at any common denominator.
    pub proof fn lemma_reduce_scaled(self, e: nat)
        requires
            self.exp <= e,
        ensures
            self.reduce().scaled(e) == self.scaled(e),
    {
        self.lemma_reduce();
        let r = self.reduce();
        r.lemma_scaled(self.exp, e);
    }

    /// The order of numbers is transitive.
    pub proof fn lemma_order_transitive(self, b: Dyadic, c: Dyadic)
        ensures
            self.le(b) && b.le(c) ==> self.le(c),
            self.lt(b) && b.le(c) ==> self.lt(c),
            self.le(b) && b.lt(c) ==> self.lt(c),
            self.lt(b) <==> !b.le(self),
            self.le(b) && b.le(self) && self.normal() && b.normal() ==> self == b,
    {
        let e = self.exp + b.exp + c.exp;
        self.lemma_order_at(b, e);
        b.lemma_order_at(c, e);
        self.lemma_order_at(c, e);
        b.lemma_order_at(self, e);
        if self.le(b) && b.le(self) && self.normal() && b.normal() {
            self.lemma_same_number(b);
        }
    }

    /// Two numbers in lowest terms that are equal as rationals are the same.
    pub proof fn lemma_same_number(self, b: Dyadic)
        requires
            self.normal(),
            b.normal(),
            self.le(b),
            b.le(self),
        ensures
            self == b,
    {
        let e = self.common_exp(b);
        lemma_pow2_unfold(1);
        assert(pow2(0) == 1) by {
            vstd::arithmetic::power2::lemma2_to64();
        }
        if self.exp < b.exp {
            let d = (b.exp - self.exp) as nat;
            lemma_pow2_unfold(d);
            assert(self.num * pow2(d) == b.num * pow2(0));
            let h = self.num * pow2((d - 1) as nat);
            assert(self.num * pow2(d) == 2 * h) by (nonlinear_arith)
                requires
                    pow2(d) == 2 * pow2((d - 1) as nat),
                    h == self.num * pow2((d - 1) as nat),
            ;
            assert((2 * h) % 2 == 0);
            assert(false);
        } else if b.exp < self.exp {
            let d = (self.exp - b.exp) as nat;
            lemma_pow2_unfold(d);
            assert(b.num * pow2(d) == self.num * pow2(0));
            let h = b.num * pow2((d - 1) as nat);
            assert(b.num * pow2(d) == 2 * h) by (nonlinear_arith)
                requires
                    pow2(d) == 2 * pow2((d - 1) as nat),
                    h == b.num * pow2((d - 1) as nat),
            ;
            assert((2 * h) % 2 == 0);
            assert(false);
        } else {
            assert(self.num * pow2(0) == b.num * pow2(0));
        }
    }

    /// At a common denominator the numerator of a sum is the sum of the numerators.
    pub proof fn lemma_add_scaled(self, other: Dyadic, e: nat)
        requires
            self.exp <= e,
            other.exp <= e,
        ensures
            self.add(other).normal(),
            self.add(other).exp <= e,
            self.add(other).scaled(e) == self.scaled(e) + other.scaled(e),
    {
        let c = self.common_exp(other);
        let d = Dyadic { num: self.scaled(c) + other.scaled(c), exp: c };
        d.lemma_reduce();
        d.lemma_reduce_scaled(e);
        self.lemma_scaled(c, e);
        other.lemma_scaled(c, e);
        let p = pow2((e - c) as nat);
        assert((self.scaled(c) + other.scaled(c)) * p == self.scaled(c) * p + other.scaled(c) * p)
            by (nonlinear_arith);
    }

    /// Addition of numbers is associative and commutative.
    pub proof fn lemma_add_laws(self, b: Dyadic, c: Dyadic)
        ensures
            self.add(b) == b.add(self),
            self.add(b).add(c) == self.add(b.add(c)),
    {
        let e = self.exp + b.exp + c.exp;
        self.lemma_add_scaled(b, e);
        b.lemma_add_scaled(c, e);
        self.add(b).lemma_add_scaled(c, e);
        self.lemma_add_scaled(b.add(c), e);
        let l = self.add(b).add(c);
        let r = self.add(b.add(c));
        l.lemma_order_at(r, e);
        r.lemma_order_at(l, e);
        l.lemma_same_number(r);
    }

    /// Adding the same number keeps the order, and can be cancelled.
    pub proof fn lemma_add_order(self, other: Dyadic, z: Dyadic)
        requires
            self.normal(),
            other.normal(),
        ensures
            self.add(z).lt(other.add(z)) <==> self.lt(other),
            self.add(z).le(other.add(z)) <==> self.le(other),
            self.add(z) == other.add(z) <==> self == other,
    {
        let e = self.exp + other.exp + z.exp;
        self.lemma_add_scaled(z, e);
        other.lemma_add_scaled(z, e);
        self.add(z).lemma_order_at(other.add(z), e);
        other.add(z).lemma_order_at(self.add(z), e);
        self.lemma_order_at(other, e);
        other.lemma_order_at(self, e);
        if self.add(z) == other.add(z) {
            self.lemma_same_number(other);
        }
    }

    /// The negative of a sum is the sum of the negatives.
    pub proof fn lemma_add_neg(self, b: Dyadic)
        ensures
            self.neg().add(b.neg()) == self.add(b).neg(),
    {
        let c = self.common_exp(b);
        let d = Dyadic { num: self.scaled(c) + b.scaled(c), exp: c };
        d.lemma_reduce_neg();
        let p = pow2((c - self.exp) as nat);
        let q = pow2((c - b.exp) as nat);
        assert((-self.num) * p == -(self.num * p)) by (nonlinear_arith);
        assert((-b.num) * q == -(b.num * q)) by (nonlinear_arith);
    }

    /// Zero over any denominator reduces to the integer zero.
    pub proof fn lemma_reduce_zero(e: nat)
        ensures
            (Dyadic { num: 0, exp: e }).reduce() == Dyadic::from_int(0),
        decreases e,
    {
        if e > 0 {
            Self::lemma_reduce_zero((e - 1) as nat);
        }
    }
}

/// Absolute value.
pub open spec fn magnitude(x: int) -> nat {
    if x >= 0 {
        x as nat
    } else {
        (-x) as nat
    }
}

/// A multiple of `d` above `l` is at least the next multiple of `d` after `l`.
proof fn lemma_next_multiple(l: int, d: int, t: int)
    requires
        d > 0,
        t * d > l,
    ensures
        t * d >= (l / d + 1) * d,
        (l / d + 1) * d > l,
        l / d * d <= l,
{
    vstd::arithmetic::div_mod::lemma_fundamental_div_mod(l, d);
    let q = l / d;
    assert(q * d == d * q) by (nonlinear_arith);
    assert((q + 1) * d == q * d + d) by (nonlinear_arith);
    assert(t >= q + 1) by (nonlinear_arith)
        requires
            d > 0,
            t * d > l,
            l >= q * d,
    ;
    assert(t * d >= (q + 1) * d) by (nonlinear_arith)
        requires
            d > 0,
            t >= q + 1,
    ;
}

/// The multiples of `d` next to `l`.
proof fn lemma_floor_multiple(l: int, d: int)
    requires
        d > 0,
    ensures
        (l / d) * d <= l < (l / d + 1) * d,
        l >= 0 ==> 0 <= l / d <= l,
{
    vstd::arithmetic::div_mod::lemma_fundamental_div_mod(l, d);
    let q = l / d;
    assert(q * d == d * q) by (nonlinear_arith);
    assert((q + 1) * d == q * d + d) by (nonlinear_arith);
    if l >= 0 {
        assert(0 <= q <= l) by (nonlinear_arith)
            requires
                d >= 1,
                l >= 0,
                q * d <= l,
                (q + 1) * d > l,
        ;
    }
}

/// Between the numbers that read `l` and `h` at the denominator `2^w`, the
/// simplest number is `num / 2^exp`: it reads `m` there, which is between `l`
/// and `h`, and no multiple of a larger power of two is.
pub open spec fn found_simplest(l: int, h: int, w: nat, num: int, exp: nat) -> bool {
    &&& 0 <= l < h
    &&& exp <= w
    &&& num >= 1
    &&& l < num * pow2((w - exp) as nat) < h
    &&& num == l / (pow2((w - exp) as nat) as int) + 1
    &&& forall|e: nat|
        e < exp ==> (l / (pow2((w - e) as nat) as int) + 1) * #[trigger] pow2((w - e) as nat) >= h
}

/// What was found is the simplest number between the two.
proof fn lemma_found_simplest(lo: Dyadic, hi: Dyadic, w: nat, num: int, exp: nat)
    requires
        lo.exp <= w,
        hi.exp <= w,
        found_simplest(lo.scaled(w), hi.scaled(w), w, num, exp),
    ensures
        (Dyadic { num, exp }).is_simplest_between(lo, hi),
{
    let c = Dyadic { num, exp };
    let l = lo.scaled(w);
    let h = hi.scaled(w);
    let d = pow2((w - exp) as nat) as int;
    lemma_pow2_pos((w - exp) as nat);
    lo.lemma_order_at(c, w);
    c.lemma_order_at(hi, w);
    // lowest terms: else half the numerator is a multiple of twice the power between them
    if exp > 0 && num % 2 == 0 {
        let e = (exp - 1) as nat;
        let d2 = pow2((w - e) as nat) as int;
        lemma_pow2_unfold((w - e) as nat);
        assert(d2 == 2 * d);
        assert((num / 2) * d2 == num * d) by (nonlinear_arith)
            requires
                d2 == 2 * d,
                num % 2 == 0,
        ;
        lemma_next_multiple(l, d2, num / 2);
        assert((l / d2 + 1) * pow2((w - e) as nat) >= h);
        assert(false);
    }
    assert forall|y: Dyadic| y.normal() && #[trigger] y.between(lo, hi) implies c.simpler_or_equal(
        y,
    ) by {
        if y.exp <= exp {
            lo.lemma_order_at(y, w);
            y.lemma_order_at(hi, w);
            let dy = pow2((w - y.exp) as nat) as int;
            lemma_pow2_pos((w - y.exp) as nat);
            lemma_next_multiple(l, dy, y.num);
            if y.exp < exp {
                assert((l / dy + 1) * pow2((w - y.exp) as nat) >= h);
                assert(false);
            } else {
                assert(y.num >= num) by (nonlinear_arith)
                    requires
                        d > 0,
                        y.num * d >= num * d,
                ;
            }
        }
    }
}

/// The simplest number between two numbers is the negative of the
/// simplest number between their negatives.
proof fn lemma_simplest_neg(c: Dyadic, lo: Dyadic, hi: Dyadic)
    requires
        c.is_simplest_between(hi.neg(), lo.neg()),
    ensures
        c.neg().is_simplest_between(lo, hi),
{
    let n = c.neg();
    c.lemma_order_neg(lo.neg());
    hi.neg().lemma_order_neg(c);
    assert(lo.neg().neg() == lo && hi.neg().neg() == hi && c.neg().neg() == c);
    assert((-c.num) % 2 == 0 <==> c.num % 2 == 0);
    n.lemma_order_neg(hi);
    lo.lemma_order_neg(n);
    assert forall|y: Dyadic| y.normal() && #[trigger] y.between(lo, hi) implies n.simpler_or_equal(
        y,
    ) by {
        let m = y.neg();
        y.lemma_order_neg(hi);
        lo.lemma_order_neg(y);
        assert((-y.num) % 2 == 0 <==> y.num % 2 == 0);
        assert(m.between(hi.neg(), lo.neg()));
    }
}

/// A number: an integer, or a fraction with its denominator, as `-3/4`.
pub open spec fn number_text(x: Dyadic) -> Seq<char> {
    (if x.num < 0 {
        "-"@
    } else {
        Seq::empty()
    }) + decimal(
        (if x.num < 0 {
            -x.num
        } else {
            x.num
        }) as nat,
    ) + (if x.exp > 0 {
        "/"@ + decimal(pow2(x.exp))
    } else {
        Seq::empty()
    })
}

/// A dyadic rational `p / 2^q`, kept in lowest terms.
#[derive(Debug, Clone, Copy, Hash, PartialEq, Eq, Structural)]
pub struct DyadicRationalNumber {
    numerator: i64,
    denominator_exponent: u32,
}

impl View for DyadicRationalNumber {
    type V = Dyadic;

    closed spec fn view(&self) -> Dyadic {
        Dyadic { num: self.numerator as int, exp: self.denominator_exponent as nat }
    }
}

/// `2^e` for a small `e`.
fn power_of_two(e: u32) -> (p: i128)
    requires
        e <= 63,
    ensures
        p == pow2(e as nat),
        1 <= p <= 0x8000_0000_0000_0000,
        e <= MAX_EXPONENT ==> p <= 0x4000_0000_0000_0000,
{
    let mut p: i128 = 1;
    let mut i: u32 = 0;
    proof {
        vstd::arithmetic::power2::lemma2_to64();
        vstd::arithmetic::power2::lemma2_to64_rest();
    }
    while i < e
        invariant
            i <= e <= 63,
            p == pow2(i as nat),
            1 <= p,
            p <= pow2(63),
            i <= 62 ==> p <= pow2(62),
            pow2(62) == 0x4000_0000_0000_0000,
            pow2(63) == 0x8000_0000_0000_0000,
        decreases e - i,
    {
        proof {
            lemma_pow2_unfold((i + 1) as nat);
            if i + 1 < 63 {
                vstd::arithmetic::power2::lemma_pow2_strictly_increases((i + 1) as nat, 63);
            }
            if i + 1 < 62 {
                vstd::arithmetic::power2::lemma_pow2_strictly_increases((i + 1) as nat, 62);
            }
        }
        p = p * 2;
        i += 1;
    }
    p
}

impl DyadicRationalNumber {
    /// The number is in lowest terms and can be stored.
    pub open spec fn wf(&self) -> bool {
        self@.normal() && self@.fits()
    }

    /// Whether the number is in lowest terms and can be stored.
    pub fn wf_exec(&self) -> (b: bool)
        ensures
            b == self.wf(),
    {
        (self.denominator_exponent == 0 || self.numerator % 2 != 0) && self.numerator > i64::MIN
            && self.denominator_exponent <= MAX_EXPONENT
    }

    /// `numerator / 2^denominator_exponent`, reduced by stripping common factors of two.
    pub fn new(numerator: i64, denominator_exponent: u32) -> (r: Self)
        requires
            numerator > i64::MIN,
            denominator_exponent <= MAX_EXPONENT,
        ensures
            r.wf(),
            r@ == (Dyadic { num: numerator as int, exp: denominator_exponent as nat }).reduce(),
    {
        let mut p = numerator;
        let mut q = denominator_exponent;
        let ghost start = Dyadic { num: numerator as int, exp: denominator_exponent as nat };
        while q > 0 && p % 2 == 0
            invariant
                -i64::MAX <= p <= i64::MAX,
                q <= MAX_EXPONENT,
                (Dyadic { num: p as int, exp: q as nat }).reduce() == start.reduce(),
            decreases q,
        {
            p = p / 2;
            q = q - 1;
        }
        proof {
            let d = Dyadic { num: p as int, exp: q as nat };
            assert(d.normal());
            d.lemma_reduce();
        }
        DyadicRationalNumber { numerator: p, denominator_exponent: q }
    }

    /// The integer `number`.
    pub fn new_integer(number: i64) -> (r: Self)
        requires
            number > i64::MIN,
        ensures
            r.wf(),
            r@ == Dyadic::from_int(number as int),
    {
        DyadicRationalNumber { numerator: number, denominator_exponent: 0 }
    }

    /// The numerator, in lowest terms.
    pub fn numerator(&self) -> (p: i64)
        ensures
            p == self@.num,
    {
        self.numerator
    }

    /// The exponent of the denominator, in lowest terms.
    pub fn denominator_exponent(&self) -> (q: u32)
        ensures
            q == self@.exp,
    {
        self.denominator_exponent
    }

    /// The denominator, in lowest terms.
    pub fn denominator(&self) -> (d: u64)
        requires
            self.wf(),
        ensures
            d == pow2(self@.exp),
    {
        power_of_two(self.denominator_exponent) as u64
    }

    /// Whether the number is an integer.
    pub fn is_integer(&self) -> (b: bool)
        ensures
            b == self@.is_integer(),
    {
        self.denominator_exponent == 0
    }

    /// The number as an integer, if it is one.
    pub fn to_integer(&self) -> (r: Option<i64>)
        ensures
            r is Some <==> self@.is_integer(),
            r matches Some(n) ==> n == self@.num,
    {
        if self.denominator_exponent == 0 {
            Some(self.numerator)
        } else {
            None
        }
    }

    /// The negative.
    pub fn neg(&self) -> (r: Self)
        requires
            self.wf(),
        ensures
            r.wf(),
            r@ == self@.neg(),
    {
        DyadicRationalNumber {
            numerator: -self.numerator,
            denominator_exponent: self.denominator_exponent,
        }
    }

    /// The numerators of both numbers over their common denominator.
    fn aligned(&self, other: &Self) -> (r: (i128, i128, u32))
        requires
            self.wf(),
            other.wf(),
        ensures
            r.2 == self@.common_exp(other@),
            r.0 == self@.scaled(r.2 as nat),
            r.1 == other@.scaled(r.2 as nat),
            -0x4000_0000_0000_0000_0000_0000_0000_0000 < r.0
                < 0x4000_0000_0000_0000_0000_0000_0000_0000,
            -0x4000_0000_0000_0000_0000_0000_0000_0000 < r.1
                < 0x4000_0000_0000_0000_0000_0000_0000_0000,
    {
        let e = if self.denominator_exponent >= other.denominator_exponent {
            self.denominator_exponent
        } else {
            other.denominator_exponent
        };
        let pa = power_of_two(e - self.denominator_exponent);
        let pb = power_of_two(e - other.denominator_exponent);
        let a = self.numerator as i128;
        let b = other.numerator as i128;
        assert(-0x4000_0000_0000_0000_0000_0000_0000_0000 < a * pa
            < 0x4000_0000_0000_0000_0000_0000_0000_0000) by (nonlinear_arith)
            requires
                -0x8000_0000_0000_0000 < a < 0x8000_0000_0000_0000,
                1 <= pa <= 0x4000_0000_0000_0000,
        ;
        assert(-0x4000_0000_0000_0000_0000_0000_0000_0000 < b * pb
            < 0x4000_0000_0000_0000_0000_0000_0000_0000) by (nonlinear_arith)
            requires
                -0x8000_0000_0000_0000 < b < 0x8000_0000_0000_0000,
                1 <= pb <= 0x4000_0000_0000_0000,
        ;
        (a * pa, b * pb, e)
    }

    /// Sum, if it can be stored.
    pub fn checked_add(&self, other: &Self) -> (r: Option<Self>)
        requires
            self.wf(),
            other.wf(),
        ensures
            r is Some <==> self@.add(other@).fits(),
            r matches Some(sum) ==> sum.wf() && sum@ == self@.add(other@),
    {
        let (a, b, e) = self.aligned(other);
        let mut p: i128 = a + b;
        let mut q: u32 = e;
        let ghost start = Dyadic { num: p as int, exp: q as nat };
        while q > 0 && p % 2 == 0
            invariant
                q <= MAX_EXPONENT,
                -0x8000_0000_0000_0000_0000_0000_0000_0000 < p
                    < 0x8000_0000_0000_0000_0000_0000_0000_0000,
                (Dyadic { num: p as int, exp: q as nat }).reduce() == start.reduce(),
            decreases q,
        {
            p = p / 2;
            q = q - 1;
        }
        proof {
            let d = Dyadic { num: p as int, exp: q as nat };
            assert(d.normal());
            d.lemma_reduce();
        }
        if -0x7fff_ffff_ffff_ffff <= p && p <= 0x7fff_ffff_ffff_ffff {
            Some(DyadicRationalNumber { numerator: p as i64, denominator_exponent: q })
        } else {
            None
        }
    }

    /// The number half way between the two, if it can be stored.
    pub fn checked_mean(&self, other: &Self) -> (r: Option<Self>)
        requires
            self.wf(),
            other.wf(),
        ensures
            r is Some <==> self@.mean(other@).fits(),
            r matches Some(mean) ==> mean.wf() && mean@ == self@.mean(other@),
    {
        let (a, b, e) = self.aligned(other);
        let mut p: i128 = a + b;
        let mut q: u32 = e + 1;
        let ghost start = Dyadic { num: p as int, exp: q as nat };
        while q > 0 && p % 2 == 0
            invariant
                q <= MAX_EXPONENT + 1,
                -0x8000_0000_0000_0000_0000_0000_0000_0000 < p
                    < 0x8000_0000_0000_0000_0000_0000_0000_0000,
                (Dyadic { num: p as int, exp: q as nat }).reduce() == start.reduce(),
            decreases q,
        {
            p = p / 2;
            q = q - 1;
        }
        proof {
            let d = Dyadic { num: p as int, exp: q as nat };
            assert(d.normal());
            d.lemma_reduce();
        }
        if -0x7fff_ffff_ffff_ffff <= p && p <= 0x7fff_ffff_ffff_ffff && q <= MAX_EXPONENT {
            Some(DyadicRationalNumber { numerator: p as i64, denominator_exponent: q })
        } else {
            None
        }
    }

    /// Sum. The sum must be a number that can be stored.
    pub fn add(&self, other: &Self) -> (sum: Self)
        requires
            self.wf(),
            other.wf(),
            self@.add(other@).fits(),
        ensures
            sum.wf(),
            sum@ == self@.add(other@),
    {
        match self.checked_add(other) {
            Some(sum) => sum,
            None => *self,
        }
    }

    /// Difference. The difference must be a number that can be stored.
    pub fn sub(&self, other: &Self) -> (difference: Self)
        requires
            self.wf(),
            other.wf(),
            self@.sub(other@).fits(),
        ensures
            difference.wf(),
            difference@ == self@.sub(other@),
    {
        match self.checked_sub(other) {
            Some(difference) => difference,
            None => *self,
        }
    }

    /// Which of the two numbers is larger.
    pub fn compare(&self, other: &Self) -> (o: Order)
        requires
            self.wf(),
            other.wf(),
        ensures
            o == self@.order(other@),
            o is Equal <==> self@ == other@,
    {
        proof {
            self@.lemma_order_transitive(other@, other@);
            other@.lemma_order_transitive(self@, self@);
        }
        let (a, b, _) = self.aligned(other);
        if a < b {
            Order::Less
        } else if b < a {
            Order::Greater
        } else {
            Order::Equal
        }
    }

    /// The greatest integer that is not above the number.
    pub fn floor(&self) -> (n: i64)
        requires
            self.wf(),
        ensures
            n == self@.floor(),
    {
        let p = power_of_two(self.denominator_exponent);
        let x = self.numerator as i128;
        if x >= 0 {
            proof {
                vstd::arithmetic::div_mod::lemma_fundamental_div_mod(x as int, p as int);
                assert(0 <= (x as int) / (p as int) <= x) by (nonlinear_arith)
                    requires
                        x >= 0,
                        p >= 1,
                        x == p * ((x as int) / (p as int)) + (x as int) % (p as int),
                        0 <= (x as int) % (p as int) < p,
                ;
            }
            (x / p) as i64
        } else {
            // round the quotient of the absolute value up
            let m = -x;
            let c = (m + p - 1) / p;
            proof {
                let s = ((m + p - 1) as int) % (p as int);
                vstd::arithmetic::div_mod::lemma_fundamental_div_mod((m + p - 1) as int, p as int);
                assert(x == (-c) * p + (p - 1 - s)) by (nonlinear_arith)
                    requires
                        m + p - 1 == p * c + s,
                        x == -m,
                ;
                vstd::arithmetic::div_mod::lemma_fundamental_div_mod_converse(
                    x as int,
                    p as int,
                    -c as int,
                    (p - 1 - s) as int,
                );
                assert(0 <= c <= m) by (nonlinear_arith)
                    requires
                        m >= 1,
                        p >= 1,
                        m + p - 1 == p * c + s,
                        0 <= s < p,
                ;
            }
            (-c) as i64
        }
    }

    /// The least integer that is not below the number.
    pub fn ceil(&self) -> (n: i64)
        requires
            self.wf(),
        ensures
            n == self@.ceil(),
    {
        let negative = self.neg();
        let below = negative.floor();
        proof {
            let p = pow2(self@.exp) as int;
            lemma_pow2_pos(self@.exp);
            vstd::arithmetic::div_mod::lemma_fundamental_div_mod(-self@.num, p);
            assert(-i64::MAX <= (-self@.num) / p <= i64::MAX) by (nonlinear_arith)
                requires
                    p >= 1,
                    -i64::MAX <= -self@.num <= i64::MAX,
                    -self@.num == p * ((-self@.num) / p) + (-self@.num) % p,
                    0 <= (-self@.num) % p < p,
            ;
        }
        -below
    }

    /// The simplest number strictly between two numbers that are not
    /// negative, if it can be stored.
    fn simplest_above(lo: &Self, hi: &Self) -> (r: Option<Self>)
        requires
            lo.wf(),
            hi.wf(),
            lo@.lt(hi@),
            lo@.num >= 0,
        ensures
            exists|c: Dyadic| #[trigger]
                c.is_simplest_between(lo@, hi@) && match r {
                    Some(x) => x.wf() && x@ == c,
                    None => !c.fits(),
                },
    {
        // both numbers over a denominator of which they are even multiples
        let w = if lo.denominator_exponent >= hi.denominator_exponent {
            lo.denominator_exponent + 1
        } else {
            hi.denominator_exponent + 1
        };
        let pa = power_of_two(w - lo.denominator_exponent);
        let pb = power_of_two(w - hi.denominator_exponent);
        let x = lo.numerator as i128;
        let y = hi.numerator as i128;
        proof {
            lo@.lemma_order_at(hi@, w as nat);
            let a = (w - lo@.exp) as nat;
            let b = (w - hi@.exp) as nat;
            lemma_pow2_unfold(a);
            lemma_pow2_unfold(b);
            lemma_pow2_pos((a - 1) as nat);
            lemma_pow2_pos((b - 1) as nat);
            assert(0 <= x * pa < 0x4000_0000_0000_0000_0000_0000_0000_0000) by (nonlinear_arith)
                requires
                    0 <= x < 0x8000_0000_0000_0000,
                    1 <= pa <= 0x8000_0000_0000_0000,
            ;
            assert(x * pa < y * pb);
            assert(y * pb < 0x4000_0000_0000_0000_0000_0000_0000_0000) by (nonlinear_arith)
                requires
                    0 <= x * pa < y * pb,
                    y < 0x8000_0000_0000_0000,
                    1 <= pb <= 0x8000_0000_0000_0000,
            ;
            let half_a = x * pow2((a - 1) as nat);
            let half_b = y * pow2((b - 1) as nat);
            assert(x * pa == 2 * half_a) by (nonlinear_arith)
                requires
                    pa == 2 * pow2((a - 1) as nat),
                    half_a == x * pow2((a - 1) as nat),
            ;
            assert(y * pb == 2 * half_b) by (nonlinear_arith)
                requires
                    pb == 2 * pow2((b - 1) as nat),
                    half_b == y * pow2((b - 1) as nat),
            ;
        }
        let l = x * pa;
        let h = y * pb;
        let mut e: u32 = 0;
        loop
            invariant
                e <= w <= 63,
                lo.wf(),
                hi.wf(),
                lo@.exp < w,
                hi@.exp < w,
                l == lo@.scaled(w as nat),
                h == hi@.scaled(w as nat),
                0 <= l < h < 0x4000_0000_0000_0000_0000_0000_0000_0000,
                l % 2 == 0,
                h % 2 == 0,
                forall|k: nat|
                    k < e ==> ((l as int) / (pow2((w - k) as nat) as int) + 1) * #[trigger] pow2(
                        (w - k) as nat,
                    ) >= h,
            decreases w - e,
        {
            let d = power_of_two(w - e);
            let q = l / d;
            proof {
                lemma_floor_multiple(l as int, d as int);
                assert((q + 1) * d <= l + d) by (nonlinear_arith)
                    requires
                        q * d <= l,
                ;
            }
            let m = (q + 1) * d;
            if m < h {
                proof {
                    assert(found_simplest(l as int, h as int, w as nat, q + 1, e as nat));
                    lemma_found_simplest(lo@, hi@, w as nat, q + 1, e as nat);
                }
                let num = q + 1;
                if num <= 0x7fff_ffff_ffff_ffff && e <= MAX_EXPONENT {
                    return Some(DyadicRationalNumber { numerator: num as i64, denominator_exponent: e });
                } else {
                    return None;
                }
            }
            proof {
                if e == w {
                    // over the common denominator both numbers are even: an odd number is between
                    assert(pow2(0) == 1) by {
                        vstd::arithmetic::power2::lemma2_to64();
                    }
                    assert(false);
                }
            }
            e += 1;
        }
    }

    /// The simplest number strictly between `lo` and `hi`, if it can be
    /// stored: the integer of least absolute value, if there is an integer
    /// between them; else the number with the least denominator.
    pub fn simplest_between(lo: &Self, hi: &Self) -> (r: Option<Self>)
        requires
            lo.wf(),
            hi.wf(),
            lo@.lt(hi@),
        ensures
            exists|c: Dyadic| #[trigger]
                c.is_simplest_between(lo@, hi@) && match r {
                    Some(x) => x.wf() && x@ == c,
                    None => !c.fits(),
                },
    {
        let zero = DyadicRationalNumber::new_integer(0);
        if lo.numerator >= 0 {
            Self::simplest_above(lo, hi)
        } else if hi.numerator <= 0 {
            let low = hi.neg();
            let high = lo.neg();
            proof {
                lo@.lemma_order_neg(hi@);
            }
            let found = Self::simplest_above(&low, &high);
            proof {
                let c = choose|c: Dyadic| #[trigger]
                    c.is_simplest_between(low@, high@) && match found {
                        Some(x) => x.wf() && x@ == c,
                        None => !c.fits(),
                    };
                lemma_simplest_neg(c, lo@, hi@);
                assert(c.neg().is_simplest_between(lo@, hi@));
            }
            match found {
                Some(x) => Some(x.neg()),
                None => None,
            }
        } else {
            proof {
                let c = Dyadic::from_int(0);
                let pl = pow2((c.common_exp(lo@) - lo@.exp) as nat);
                let ph = pow2((c.common_exp(hi@) - hi@.exp) as nat);
                lemma_pow2_pos((c.common_exp(lo@) - lo@.exp) as nat);
                lemma_pow2_pos((c.common_exp(hi@) - hi@.exp) as nat);
                assert(lo@.num * pl < 0) by (nonlinear_arith)
                    requires
                        lo@.num < 0,
                        pl > 0,
                ;
                assert(hi@.num * ph > 0) by (nonlinear_arith)
                    requires
                        hi@.num > 0,
                        ph > 0,
                ;
                assert(0 * pow2(lo@.exp) == 0 && 0 * pow2(hi@.exp) == 0);
                assert(c.is_simplest_between(lo@, hi@));
            }
            Some(zero)
        }
    }

    /// Difference, if it can be stored.
    pub fn checked_sub(&self, other: &Self) -> (r: Option<Self>)
        requires
            self.wf(),
            other.wf(),
        ensures
            r is Some <==> self@.sub(other@).fits(),
            r matches Some(difference) ==> difference.wf() && difference@ == self@.sub(other@),
    {
        let negative = other.neg();
        self.checked_add(&negative)
    }

    /// Whether `self < other`.
    pub fn lt(&self, other: &Self) -> (b: bool)
        requires
            self.wf(),
            other.wf(),
        ensures
            b == self@.lt(other@),
    {
        let (a, b, _) = self.aligned(other);
        a < b
    }

    /// Whether `self <= other`.
    pub fn le(&self, other: &Self) -> (b: bool)
        requires
            self.wf(),
            other.wf(),
        ensures
            b == self@.le(other@),
    {
        let (a, b, _) = self.aligned(other);
        a <= b
    }

    /// Whether both are the same number.
    pub fn equals(&self, other: &Self) -> (b: bool)
        ensures
            b == (self@ == other@),
    {
        self.numerator == other.numerator && self.denominator_exponent
            == other.denominator_exponent
    }
    /// Appends the number as text.
    pub fn write_to(&self, buf: &mut String)
        requires
            self.wf(),
        ensures
            final(buf)@ == old(buf)@ + number_text(self@),
    {
        let ghost start = buf@;
        let p = self.numerator();
        if p < 0 {
            buf.append("-");
            append_decimal(buf, (-p) as u64);
        } else {
            append_decimal(buf, p as u64);
        }
        if self.denominator_exponent() > 0 {
            buf.append("/");
            append_decimal(buf, self.denominator());
        }
        assert(buf@ =~= start + number_text(self@));
    }

    /// The number as text, as `-3/4`.
    pub fn to_string(&self) -> (text: String)
        requires
            self.wf(),
        ensures
            text@ == number_text(self@),
    {
        let mut text = String::new();
        self.write_to(&mut text);
        proof {
            assert(Seq::<char>::empty() + number_text(self@) =~= number_text(self@));
        }
        text
    }
}

} // verus!
