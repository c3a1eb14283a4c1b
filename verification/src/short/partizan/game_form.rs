//! Mathematical model of game values: finite trees of Left and Right
//! options whose leaves are numbers-up-star, and the partial order of games
//! on them.

use crate::numeric::dyadic_rational_number::Dyadic;
use vstd::arithmetic::power2::pow2;
use vstd::prelude::*;

verus! {

/// Model of a number-up-star `number + ups * ↑ + *star`.
pub struct NumberUpStar {
    pub number: Dyadic,
    pub ups: int,
    pub star: u32,
}

/// Absolute value.
pub open spec fn abs(x: int) -> nat {
    if x >= 0 {
        x as nat
    } else {
        (-x) as nat
    }
}

impl NumberUpStar {
    /// The number is in lowest terms.
    pub open spec fn wf(self) -> bool {
        self.number.normal()
    }

    /// Every part can be stored and negated.
    pub open spec fn fits(self) -> bool {
        &&& self.number.fits()
        &&& -i32::MAX <= self.ups <= i32::MAX
    }

    /// The value is well-formed and can be stored.
    pub open spec fn storable(self) -> bool {
        self.wf() && self.fits()
    }

    /// The number `x` alone.
    pub open spec fn of_number(x: Dyadic) -> NumberUpStar {
        NumberUpStar { number: x, ups: 0, star: 0 }
    }

    /// The integer `n`.
    pub open spec fn integer(n: int) -> NumberUpStar {
        Self::of_number(Dyadic::from_int(n))
    }

    /// Zero.
    pub open spec fn zero() -> NumberUpStar {
        Self::integer(0)
    }

    /// Whether the value is a number: no ups and no star.
    pub open spec fn is_number(self) -> bool {
        self.ups == 0 && self.star == 0
    }

    /// The same number with other infinitesimal parts.
    pub open spec fn with(self, ups: int, star: u32) -> NumberUpStar {
        NumberUpStar { number: self.number, ups, star }
    }

    /// Sum: the parts add up, the stars by exclusive or.
    pub open spec fn add(self, other: NumberUpStar) -> NumberUpStar {
        NumberUpStar {
            number: self.number.add(other.number),
            ups: self.ups + other.ups,
            star: self.star ^ other.star,
        }
    }

    /// Negative: number and ups change sign, the star stays.
    pub open spec fn neg(self) -> NumberUpStar {
        NumberUpStar { number: self.number.neg(), ups: -self.ups, star: self.star }
    }

    /// A bound on the depth of the game tree below the value.
    pub open spec fn rank(self) -> nat {
        abs(self.number.num) + self.number.exp + 2 * abs(self.ups) + self.star as nat
    }

    /// The number just below a number that is no integer: its Left option.
    pub open spec fn number_below(x: Dyadic) -> Dyadic {
        (Dyadic { num: x.num - 1, exp: x.exp }).reduce()
    }

    /// The number just above a number that is no integer: its Right option.
    pub open spec fn number_above(x: Dyadic) -> Dyadic {
        (Dyadic { num: x.num + 1, exp: x.exp }).reduce()
    }

    /// The Left options of the value, in the order in which a canonical form lists them.
    pub open spec fn left(self) -> Seq<NumberUpStar> {
        let x = self.number;
        if self.is_number() {
            if x.exp == 0 {
                if x.num > 0 {
                    seq![Self::integer(x.num - 1)]
                } else {
                    Seq::empty()
                }
            } else {
                seq![Self::of_number(Self::number_below(x))]
            }
        } else if self.ups == 0 {
            Seq::new(self.star as nat, |j: int| self.with(0, j as u32))
        } else if self.ups == 1 && self.star == 1 {
            seq![self.with(0, 0), self.with(0, 1)]
        } else if self.ups > 0 {
            seq![self.with(0, 0)]
        } else {
            seq![self.with(self.ups + 1, self.star ^ 1)]
        }
    }

    /// The Right options of the value, in the order in which a canonical form lists them.
    pub open spec fn right(self) -> Seq<NumberUpStar> {
        let x = self.number;
        if self.is_number() {
            if x.exp == 0 {
                if x.num < 0 {
                    seq![Self::integer(x.num + 1)]
                } else {
                    Seq::empty()
                }
            } else {
                seq![Self::of_number(Self::number_above(x))]
            }
        } else if self.ups == 0 {
            Seq::new(self.star as nat, |j: int| self.with(0, j as u32))
        } else if self.ups == -1 && self.star == 1 {
            seq![self.with(0, 0), self.with(0, 1)]
        } else if self.ups < 0 {
            seq![self.with(0, 0)]
        } else {
            seq![self.with(self.ups - 1, self.star ^ 1)]
        }
    }

    /// The neighbours of a number that is no integer have smaller
    /// denominators and numerators that are no larger.
    pub proof fn lemma_neighbours(x: Dyadic)
        requires
            x.normal(),
            x.exp > 0,
        ensures
            Self::number_below(x).normal(),
            Self::number_above(x).normal(),
            Self::number_below(x).exp < x.exp,
            Self::number_above(x).exp < x.exp,
            abs(Self::number_below(x).num) <= abs(x.num),
            abs(Self::number_above(x).num) <= abs(x.num),
    {
        let below = Dyadic { num: (x.num - 1) / 2, exp: (x.exp - 1) as nat };
        let above = Dyadic { num: (x.num + 1) / 2, exp: (x.exp - 1) as nat };
        below.lemma_reduce();
        above.lemma_reduce();
        assert(Self::number_below(x) == below.reduce());
        assert(Self::number_above(x) == above.reduce());
    }

    /// A number that is no integer lies half way between its neighbours.
    pub proof fn lemma_mean_of_neighbours(x: Dyadic)
        requires
            x.normal(),
            x.exp > 0,
        ensures
            Self::number_below(x).mean(Self::number_above(x)) == x,
    {
        let below = Dyadic { num: (x.num - 1) / 2, exp: (x.exp - 1) as nat };
        let above = Dyadic { num: (x.num + 1) / 2, exp: (x.exp - 1) as nat };
        below.lemma_reduce();
        above.lemma_reduce();
        let b = Self::number_below(x);
        let a = Self::number_above(x);
        assert(b == below.reduce());
        assert(a == above.reduce());
        assert(below.num % 2 != 0 || above.num % 2 != 0);
        let e = b.common_exp(a);
        assert(e == x.exp - 1);
        assert(b.scaled(e) == below.num);
        assert(a.scaled(e) == above.num);
        assert(below.num + above.num == x.num);
        let m = Dyadic { num: x.num, exp: e + 1 };
        assert(m == x);
        x.lemma_reduce();
    }

    /// A well-formed value can be read off its options: by how many there
    /// are on each side, and by what the first ones are.
    pub proof fn lemma_read_off(self)
        requires
            self.wf(),
        ensures
            ({
                let l = self.left();
                let r = self.right();
                &&& l.len() == 0 && r.len() == 0 ==> self == Self::zero()
                &&& l.len() == 1 && r.len() == 0 ==> l[0].number.num >= 0 && self == Self::integer(
                    l[0].number.num + 1,
                )
                &&& l.len() == 0 && r.len() == 1 ==> r[0].number.num <= 0 && self == Self::integer(
                    r[0].number.num - 1,
                )
                &&& l.len() == 1 && r.len() == 1 && l[0] == r[0] ==> self == l[0].with(0, 1)
                &&& l.len() == 1 && r.len() == 1 && l[0] != r[0] && l[0].is_number()
                    && r[0].is_number() ==> self == Self::of_number(l[0].number.mean(r[0].number))
                &&& l.len() == 1 && r.len() == 1 && l[0] != r[0] && l[0].is_number()
                    && !r[0].is_number() ==> r[0].ups >= 0 && self == l[0].with(
                    r[0].ups + 1,
                    r[0].star ^ 1,
                )
                &&& l.len() == 1 && r.len() == 1 && l[0] != r[0] && !l[0].is_number() ==> l[0].ups
                    <= 0 && self == r[0].with(l[0].ups - 1, l[0].star ^ 1)
                &&& l.len() == 2 && r.len() == 1 ==> self == r[0].with(1, 1)
                &&& l.len() == 1 && r.len() == 2 ==> self == l[0].with(-1, 1)
                &&& l.len() >= 2 && r.len() >= 2 ==> l.len() == r.len() && self == l[0].with(
                    0,
                    l.len() as u32,
                )
                &&& l.len() >= 3 ==> r.len() >= 3
                &&& r.len() >= 3 ==> l.len() >= 3
            }),
    {
        Self::lemma_star_flip(self.star);
        let l = self.left();
        let r = self.right();
        let k = self.star;
        assert((k ^ 1) == 0 ==> k == 1) by (bit_vector);
        if self.is_number() {
            if self.number.exp > 0 {
                let x = self.number;
                Self::lemma_neighbours(x);
                Self::lemma_mean_of_neighbours(x);
                assert(l.len() == 1 && r.len() == 1);
                assert(l[0] == Self::of_number(Self::number_below(x)));
                assert(r[0] == Self::of_number(Self::number_above(x)));
                if l[0] == r[0] {
                    let b = Self::number_below(x);
                    let doubled = Dyadic { num: b.num * pow2(0) + b.num * pow2(0), exp: b.exp + 1 };
                    assert(pow2(0) == 1) by {
                        vstd::arithmetic::power2::lemma2_to64();
                    }
                    assert(b.mean(b) == doubled.reduce());
                    assert(doubled.num % 2 == 0 && doubled.num / 2 == b.num);
                    assert(doubled.reduce() == (Dyadic { num: b.num, exp: b.exp }).reduce());
                    b.lemma_reduce();
                    assert(false);
                }
            } else {
                assert(self.number == Dyadic::from_int(self.number.num));
            }
        } else if self.ups == 0 {
            assert(l.len() == k && r.len() == k);
            assert(l[0] == self.with(0, 0));
            assert(r[0] == self.with(0, 0));
        } else if self.ups == 1 && self.star == 1 {
            assert(l.len() == 2 && r.len() == 1);
        } else if self.ups == -1 && self.star == 1 {
            assert(l.len() == 1 && r.len() == 2);
        } else if self.ups > 0 {
            assert(l.len() == 1 && r.len() == 1);
            assert(l[0] == self.with(0, 0));
            assert(r[0] == self.with(self.ups - 1, k ^ 1));
            assert(!r[0].is_number());
        } else {
            assert(l.len() == 1 && r.len() == 1);
            assert(r[0] == self.with(0, 0));
            assert(l[0] == self.with(self.ups + 1, k ^ 1));
            assert(!l[0].is_number());
        }
    }

    /// Flipping the lowest bit changes a star by one.
    pub proof fn lemma_star_flip(k: u32)
        ensures
            k ^ 1 <= k + 1,
            k ^ 1 >= k - 1,
            (k ^ 1) ^ 1 == k,
            k ^ 1 != k,
    {
        assert(k ^ 1 <= k + 1 && (k ^ 1) ^ 1 == k && k ^ 1 != k && (k ^ 1) + 1 >= k)
            by (bit_vector);
    }

    /// Every option of a well-formed value is well-formed and of smaller
    /// rank, and can be stored if the value can.
    pub proof fn lemma_options(self)
        requires
            self.wf(),
        ensures
            forall|i: int|
                0 <= i < self.left().len() ==> (#[trigger] self.left()[i]).wf()
                    && self.left()[i].rank() < self.rank() && (self.fits()
                    ==> self.left()[i].fits()),
            forall|i: int|
                0 <= i < self.right().len() ==> (#[trigger] self.right()[i]).wf()
                    && self.right()[i].rank() < self.rank() && (self.fits()
                    ==> self.right()[i].fits()),
    {
        Self::lemma_star_flip(self.star);
        if self.is_number() && self.number.exp > 0 {
            Self::lemma_neighbours(self.number);
        }
    }
}

/// Model of a game value: a number-up-star, or a game given by its Left
/// and Right options.
pub enum Form {
    Nus(NumberUpStar),
    Moves(Seq<Form>, Seq<Form>),
}

/// The values as forms.
pub open spec fn nus_forms(s: Seq<NumberUpStar>) -> Seq<Form> {
    Seq::new(s.len(), |i: int| Form::Nus(s[i]))
}

/// The sum of the ranks of the forms, a bound for each of them.
pub open spec fn seq_rank(s: Seq<Form>) -> nat
    decreases s,
{
    if s.len() == 0 {
        0
    } else {
        s.last().rank() + seq_rank(s.drop_last())
    }
}

/// Every form in `s` is well-formed.
pub open spec fn all_wf(s: Seq<Form>) -> bool {
    forall|i: int| 0 <= i < s.len() ==> (#[trigger] s[i]).wf()
}

/// Every form in `s` is well-formed and can be stored.
pub open spec fn all_storable(s: Seq<Form>) -> bool {
    forall|i: int| 0 <= i < s.len() ==> (#[trigger] s[i]).storable()
}

impl Form {
    /// Zero, the game without options.
    pub open spec fn zero() -> Form {
        Form::Nus(NumberUpStar::zero())
    }

    /// The Left options.
    pub open spec fn left(self) -> Seq<Form> {
        match self {
            Form::Nus(n) => nus_forms(n.left()),
            Form::Moves(l, _) => l,
        }
    }

    /// The Right options.
    pub open spec fn right(self) -> Seq<Form> {
        match self {
            Form::Nus(n) => nus_forms(n.right()),
            Form::Moves(_, r) => r,
        }
    }

    /// A bound on the depth of the game tree.
    pub open spec fn rank(self) -> nat
        decreases self,
    {
        match self {
            Form::Nus(n) => n.rank(),
            Form::Moves(l, r) => 1 + seq_rank(l) + seq_rank(r),
        }
    }

    /// Every number-up-star in the tree is well-formed.
    pub open spec fn wf(self) -> bool
        decreases self,
    {
        match self {
            Form::Nus(n) => n.wf(),
            Form::Moves(l, r) => {
                &&& forall|i: int| 0 <= i < l.len() ==> (#[trigger] l[i]).wf()
                &&& forall|i: int| 0 <= i < r.len() ==> (#[trigger] r[i]).wf()
            },
        }
    }

    /// Every number-up-star in the tree can be stored.
    pub open spec fn fits(self) -> bool
        decreases self,
    {
        match self {
            Form::Nus(n) => n.fits(),
            Form::Moves(l, r) => {
                &&& forall|i: int| 0 <= i < l.len() ==> (#[trigger] l[i]).fits()
                &&& forall|i: int| 0 <= i < r.len() ==> (#[trigger] r[i]).fits()
            },
        }
    }

    /// The form is well-formed and can be stored.
    pub open spec fn storable(self) -> bool {
        self.wf() && self.fits()
    }

    /// Every option of a well-formed form is well-formed and of smaller
    /// rank, and can be stored if the form can.
    pub proof fn lemma_options(self)
        requires
            self.wf(),
        ensures
            forall|i: int|
                0 <= i < self.left().len() ==> (#[trigger] self.left()[i]).wf()
                    && self.left()[i].rank() < self.rank() && (self.fits()
                    ==> self.left()[i].fits()),
            forall|i: int|
                0 <= i < self.right().len() ==> (#[trigger] self.right()[i]).wf()
                    && self.right()[i].rank() < self.rank() && (self.fits()
                    ==> self.right()[i].fits()),
    {
        match self {
            Form::Nus(n) => {
                n.lemma_options();
            },
            Form::Moves(l, r) => {
                assert forall|i: int| 0 <= i < l.len() implies (#[trigger] l[i]).rank()
                    < self.rank() by {
                    lemma_seq_rank(l, i);
                }
                assert forall|i: int| 0 <= i < r.len() implies (#[trigger] r[i]).rank()
                    < self.rank() by {
                    lemma_seq_rank(r, i);
                }
            },
        }
    }
}

/// The rank of a sequence bounds the rank of each of its forms.
pub proof fn lemma_seq_rank(s: Seq<Form>, i: int)
    requires
        0 <= i < s.len(),
    ensures
        s[i].rank() <= seq_rank(s),
    decreases s.len(),
{
    if i < s.len() - 1 {
        lemma_seq_rank(s.drop_last(), i);
    }
}

/// The partial order of games: `g >= h` unless Right can move from `g` to
/// some `g^R <= h` or Left can move from `h` to some `h^L >= g`.
pub open spec fn ge(g: Form, h: Form) -> bool
    decreases g.rank() + h.rank(),
    when g.wf() && h.wf()
    via ge_decreases
{
    &&& forall|i: int| 0 <= i < g.right().len() ==> !ge(h, #[trigger] g.right()[i])
    &&& forall|j: int| 0 <= j < h.left().len() ==> !ge(#[trigger] h.left()[j], g)
}

#[via_fn]
proof fn ge_decreases(g: Form, h: Form) {
    g.lemma_options();
    h.lemma_options();
}

/// `g` and `h` have the same value: each is at least the other.
pub open spec fn equal_value(g: Form, h: Form) -> bool {
    ge(g, h) && ge(h, g)
}

/// Every game is at least itself, no Right option of a game is at most the
/// game, and no Left option is at least the game.
pub proof fn lemma_ge_reflexive(g: Form)
    requires
        g.wf(),
    ensures
        ge(g, g),
        forall|i: int| 0 <= i < g.right().len() ==> !ge(g, #[trigger] g.right()[i]),
        forall|j: int| 0 <= j < g.left().len() ==> !ge(#[trigger] g.left()[j], g),
    decreases g.rank(),
{
    g.lemma_options();
    assert forall|i: int| 0 <= i < g.right().len() implies !ge(g, #[trigger] g.right()[i]) by {
        let r = g.right()[i];
        lemma_ge_reflexive(r);
        if ge(g, r) {
            assert(!ge(r, g.right()[i]));
        }
    }
    assert forall|j: int| 0 <= j < g.left().len() implies !ge(#[trigger] g.left()[j], g) by {
        let l = g.left()[j];
        lemma_ge_reflexive(l);
        if ge(l, g) {
            assert(!ge(g.left()[j], l));
        }
    }
}

/// The order of games is transitive.
pub proof fn lemma_ge_transitive(a: Form, b: Form, c: Form)
    requires
        a.wf(),
        b.wf(),
        c.wf(),
        ge(a, b),
        ge(b, c),
    ensures
        ge(a, c),
    decreases a.rank() + b.rank() + c.rank(),
{
    a.lemma_options();
    c.lemma_options();
    assert forall|i: int| 0 <= i < a.right().len() implies !ge(c, #[trigger] a.right()[i]) by {
        let ar = a.right()[i];
        if ge(c, ar) {
            lemma_ge_transitive(b, c, ar);
            assert(!ge(b, a.right()[i]));
        }
    }
    assert forall|j: int| 0 <= j < c.left().len() implies !ge(#[trigger] c.left()[j], a) by {
        let cl = c.left()[j];
        if ge(cl, a) {
            lemma_ge_transitive(cl, a, b);
            assert(!ge(c.left()[j], b));
        }
    }
}

/// The options of the player: Left's if `left`, else Right's.
pub open spec fn own(f: Form, left: bool) -> Seq<Form> {
    if left {
        f.left()
    } else {
        f.right()
    }
}

/// The options of the other player.
pub open spec fn opp(f: Form, left: bool) -> Seq<Form> {
    own(f, !left)
}

/// `a` is at least as good as `b` for the player: `a >= b` for Left,
/// `a <= b` for Right.
pub open spec fn better(a: Form, b: Form, left: bool) -> bool {
    if left {
        ge(a, b)
    } else {
        ge(b, a)
    }
}

/// The definition of the order, seen from one player.
pub proof fn lemma_better_unfold(a: Form, b: Form, left: bool)
    requires
        a.wf(),
        b.wf(),
    ensures
        better(a, b, left) <==> ((forall|i: int|
            0 <= i < opp(a, left).len() ==> !better(b, #[trigger] opp(a, left)[i], left))
            && (forall|j: int|
            0 <= j < own(b, left).len() ==> !better(#[trigger] own(b, left)[j], a, left))),
{
    a.lemma_options();
    b.lemma_options();
    if left {
        assert(opp(a, left) == a.right() && own(b, left) == b.left());
        if better(a, b, left) {
            assert forall|i: int| 0 <= i < opp(a, left).len() implies !better(
                b,
                #[trigger] opp(a, left)[i],
                left,
            ) by {
                assert(!ge(b, a.right()[i]));
            }
            assert forall|j: int| 0 <= j < own(b, left).len() implies !better(
                #[trigger] own(b, left)[j],
                a,
                left,
            ) by {
                assert(!ge(b.left()[j], a));
            }
        } else if forall|i: int|
            0 <= i < opp(a, left).len() ==> !better(b, #[trigger] opp(a, left)[i], left) {
            if forall|j: int|
                0 <= j < own(b, left).len() ==> !better(#[trigger] own(b, left)[j], a, left) {
                assert forall|i: int| 0 <= i < a.right().len() implies !ge(
                    b,
                    #[trigger] a.right()[i],
                ) by {
                    assert(!better(b, opp(a, left)[i], left));
                }
                assert forall|j: int| 0 <= j < b.left().len() implies !ge(
                    #[trigger] b.left()[j],
                    a,
                ) by {
                    assert(!better(own(b, left)[j], a, left));
                }
                assert(false);
            }
        }
    } else {
        assert(opp(a, left) == a.left() && own(b, left) == b.right());
        if better(a, b, left) {
            assert forall|i: int| 0 <= i < opp(a, left).len() implies !better(
                b,
                #[trigger] opp(a, left)[i],
                left,
            ) by {
                assert(!ge(a.left()[i], b));
            }
            assert forall|j: int| 0 <= j < own(b, left).len() implies !better(
                #[trigger] own(b, left)[j],
                a,
                left,
            ) by {
                assert(!ge(a, b.right()[j]));
            }
        } else if forall|i: int|
            0 <= i < opp(a, left).len() ==> !better(b, #[trigger] opp(a, left)[i], left) {
            if forall|j: int|
                0 <= j < own(b, left).len() ==> !better(#[trigger] own(b, left)[j], a, left) {
                assert forall|i: int| 0 <= i < b.right().len() implies !ge(
                    a,
                    #[trigger] b.right()[i],
                ) by {
                    assert(!better(own(b, left)[i], a, left));
                }
                assert forall|j: int| 0 <= j < a.left().len() implies !ge(
                    #[trigger] a.left()[j],
                    b,
                ) by {
                    assert(!better(b, opp(a, left)[j], left));
                }
                assert(false);
            }
        }
    }
}

/// Every option of a well-formed form, of either player, is well-formed
/// and of smaller rank.
pub proof fn lemma_side_options(f: Form, left: bool)
    requires
        f.wf(),
    ensures
        forall|j: int|
            0 <= j < own(f, left).len() ==> (#[trigger] own(f, left)[j]).wf() && own(
                f,
                left,
            )[j].rank() < f.rank() && (f.fits() ==> own(f, left)[j].fits()),
        forall|i: int|
            0 <= i < opp(f, left).len() ==> (#[trigger] opp(f, left)[i]).wf() && opp(
                f,
                left,
            )[i].rank() < f.rank() && (f.fits() ==> opp(f, left)[i].fits()),
{
    f.lemma_options();
}

/// Every game is as good as itself; no option of the player is at least
/// as good for them as the game, and the game is not at least as good for
/// them as any option of the other player.
pub proof fn lemma_better_reflexive(g: Form, left: bool)
    requires
        g.wf(),
    ensures
        better(g, g, left),
        forall|j: int| 0 <= j < own(g, left).len() ==> !better(#[trigger] own(g, left)[j], g, left),
        forall|i: int| 0 <= i < opp(g, left).len() ==> !better(g, #[trigger] opp(g, left)[i], left),
        forall|j: int| 0 <= j < own(g, left).len() ==> (#[trigger] own(g, left)[j]).wf(),
        forall|i: int| 0 <= i < opp(g, left).len() ==> (#[trigger] opp(g, left)[i]).wf(),
{
    lemma_ge_reflexive(g);
    g.lemma_options();
}

/// "At least as good" is transitive.
pub proof fn lemma_better_transitive(a: Form, b: Form, c: Form, left: bool)
    requires
        a.wf(),
        b.wf(),
        c.wf(),
        better(a, b, left),
        better(b, c, left),
    ensures
        better(a, c, left),
{
    if left {
        lemma_ge_transitive(a, b, c);
    } else {
        lemma_ge_transitive(c, b, a);
    }
}

/// One of `kept` is at least as good for the player as `o`.
pub open spec fn has_better(kept: Seq<Form>, o: Form, left: bool) -> bool {
    exists|k: int| 0 <= k < kept.len() && better(#[trigger] kept[k], o, left)
}

/// Every form of `covered` has one in `kept` that is at least as good.
pub open spec fn dominated_by(covered: Seq<Form>, kept: Seq<Form>, left: bool) -> bool {
    forall|a: int| 0 <= a < covered.len() ==> has_better(kept, #[trigger] covered[a], left)
}

/// The option `o` of the player in the game `g` is made up for by the
/// options `kept`: one of them is at least as good, or `o` is reversible,
/// that is the other player has an answer `x` to it that is at least as good
/// for the player as `g`, and every option of the player in `x` is made up for.
pub open spec fn absorbed(o: Form, g: Form, kept: Seq<Form>, left: bool) -> bool
    decreases o.rank(),
    when o.wf()
    via absorbed_decreases
{
    ||| has_better(kept, o, left)
    ||| (exists|i: int|
        0 <= i < opp(o, left).len() && better(g, #[trigger] opp(o, left)[i], left) && (forall|
            j: int,
        |
            0 <= j < own(opp(o, left)[i], left).len() ==> absorbed(
                #[trigger] own(opp(o, left)[i], left)[j],
                g,
                kept,
                left,
            )))
}

/// The option `o` of the player is reversible through the answer with
/// index `i`, and every option of the player after that answer is made up
/// for by `kept`.
pub open spec fn bypassed(o: Form, i: int, g: Form, kept: Seq<Form>, left: bool) -> bool {
    let x = opp(o, left)[i];
    &&& 0 <= i < opp(o, left).len()
    &&& better(g, x, left)
    &&& (forall|j: int|
        0 <= j < own(x, left).len() ==> absorbed(#[trigger] own(x, left)[j], g, kept, left))
}

#[via_fn]
proof fn absorbed_decreases(o: Form, g: Form, kept: Seq<Form>, left: bool) {
    lemma_second_options(o, left);
}

/// The player's options after an answer of the other player are
/// well-formed and of smaller rank than the form.
pub proof fn lemma_second_options(o: Form, left: bool)
    requires
        o.wf(),
    ensures
        forall|i: int, j: int|
            0 <= i < opp(o, left).len() && 0 <= j < own(opp(o, left)[i], left).len() ==> (
            #[trigger] own(opp(o, left)[i], left)[j]).wf() && own(opp(o, left)[i], left)[j].rank()
                < o.rank(),
{
    lemma_side_options(o, left);
    assert forall|i: int, j: int|
        0 <= i < opp(o, left).len() && 0 <= j < own(opp(o, left)[i], left).len() implies (
    #[trigger] own(opp(o, left)[i], left)[j]).wf() && own(opp(o, left)[i], left)[j].rank()
        < o.rank() by {
        lemma_side_options(opp(o, left)[i], left);
    }
}

/// The two ways in which an option is made up for.
pub proof fn lemma_absorbed_unfold(o: Form, g: Form, kept: Seq<Form>, left: bool)
    requires
        o.wf(),
    ensures
        absorbed(o, g, kept, left) <==> (has_better(kept, o, left) || (exists|i: int| #[trigger]
            bypassed(o, i, g, kept, left))),
{
    lemma_side_options(o, left);
    lemma_second_options(o, left);
    if absorbed(o, g, kept, left) {
        if !has_better(kept, o, left) {
            let i = choose|i: int|
                0 <= i < opp(o, left).len() && better(g, #[trigger] opp(o, left)[i], left) && (
                forall|j: int|
                    0 <= j < own(opp(o, left)[i], left).len() ==> absorbed(
                        #[trigger] own(opp(o, left)[i], left)[j],
                        g,
                        kept,
                        left,
                    ));
            assert(bypassed(o, i, g, kept, left));
        }
    }
    if exists|i: int| #[trigger] bypassed(o, i, g, kept, left) {
        let i = choose|i: int| #[trigger] bypassed(o, i, g, kept, left);
        assert(better(g, opp(o, left)[i], left));
    }
}

/// What is made up for by some options is made up for by any options that
/// dominate them.
pub proof fn lemma_absorbed_monotone(
    o: Form,
    g: Form,
    kept: Seq<Form>,
    more: Seq<Form>,
    left: bool,
)
    requires
        o.wf(),
        g.wf(),
        all_wf(kept),
        all_wf(more),
        dominated_by(kept, more, left),
        absorbed(o, g, kept, left),
    ensures
        absorbed(o, g, more, left),
    decreases o.rank(),
{
    lemma_side_options(o, left);
    lemma_absorbed_unfold(o, g, kept, left);
    lemma_absorbed_unfold(o, g, more, left);
    if has_better(kept, o, left) {
        let k = choose|k: int| 0 <= k < kept.len() && better(#[trigger] kept[k], o, left);
        assert(has_better(more, kept[k], left));
        let b = choose|b: int| 0 <= b < more.len() && better(#[trigger] more[b], kept[k], left);
        lemma_better_transitive(more[b], kept[k], o, left);
    } else {
        let i = choose|i: int| #[trigger] bypassed(o, i, g, kept, left);
        let x = opp(o, left)[i];
        lemma_side_options(x, left);
        assert forall|j: int| 0 <= j < own(x, left).len() implies absorbed(
            #[trigger] own(x, left)[j],
            g,
            more,
            left,
        ) by {
            lemma_absorbed_monotone(own(x, left)[j], g, kept, more, left);
        }
        assert(bypassed(o, i, g, more, left));
    }
}

/// An option that is made up for by the options of the player in `g2` is not
/// at least as good for them as `g2`, if `g` is not at least as good for
/// them as any option of the other player in `g2`.
pub proof fn lemma_absorbed_not_better(o: Form, g: Form, g2: Form, left: bool)
    requires
        o.wf(),
        g.wf(),
        g2.wf(),
        forall|i: int| 0 <= i < opp(g2, left).len() ==> !better(g, #[trigger] opp(g2, left)[i], left),
        absorbed(o, g, own(g2, left), left),
    ensures
        !better(o, g2, left),
    decreases o.rank(),
{
    let kept = own(g2, left);
    lemma_side_options(o, left);
    lemma_absorbed_unfold(o, g, kept, left);
    lemma_better_reflexive(g2, left);
    if better(o, g2, left) {
        if has_better(kept, o, left) {
            let k = choose|k: int| 0 <= k < kept.len() && better(#[trigger] kept[k], o, left);
            lemma_better_transitive(kept[k], o, g2, left);
            assert(!better(own(g2, left)[k], g2, left));
        } else {
            let i = choose|i: int| #[trigger] bypassed(o, i, g, kept, left);
            let x = opp(o, left)[i];
            lemma_side_options(x, left);
            lemma_better_unfold(o, g2, left);
            assert(!better(g2, opp(o, left)[i], left));
            lemma_better_unfold(g2, x, left);
            assert forall|i2: int| 0 <= i2 < opp(g2, left).len() implies !better(
                x,
                #[trigger] opp(g2, left)[i2],
                left,
            ) by {
                let r = opp(g2, left)[i2];
                if better(x, r, left) {
                    lemma_better_transitive(g, x, r, left);
                }
            }
            assert forall|j: int| 0 <= j < own(x, left).len() implies !better(
                #[trigger] own(x, left)[j],
                g2,
                left,
            ) by {
                lemma_absorbed_not_better(own(x, left)[j], g, g2, left);
            }
            assert(false);
        }
    }
}

/// The player's options after an answer that is at least as good for the
/// player as `g` are not at least as good for them as `g`.
pub proof fn lemma_after_reversal(g: Form, x: Form, j: int, left: bool)
    requires
        g.wf(),
        x.wf(),
        better(g, x, left),
        0 <= j < own(x, left).len(),
    ensures
        !better(own(x, left)[j], g, left),
{
    lemma_better_reflexive(x, left);
    if better(own(x, left)[j], g, left) {
        lemma_better_transitive(own(x, left)[j], g, x, left);
    }
}

/// Simplest form theorem, the part on values: a game `g2` has the value of
/// `g` if no option of `g2` is at least as good for its player as `g`, and
/// every option of `g` is made up for by the options of `g2`.
pub proof fn lemma_simplified_equal(g: Form, g2: Form)
    requires
        g.wf(),
        g2.wf(),
        forall|j: int| 0 <= j < g2.left().len() ==> !ge(#[trigger] g2.left()[j], g),
        forall|i: int| 0 <= i < g2.right().len() ==> !ge(g, #[trigger] g2.right()[i]),
        forall|j: int| 0 <= j < g.left().len() ==> absorbed(#[trigger] g.left()[j], g, g2.left(), true),
        forall|i: int|
            0 <= i < g.right().len() ==> absorbed(#[trigger] g.right()[i], g, g2.right(), false),
    ensures
        equal_value(g, g2),
{
    g.lemma_options();
    g2.lemma_options();
    assert forall|j: int| 0 <= j < g.left().len() implies !ge(#[trigger] g.left()[j], g2) by {
        assert forall|i: int| 0 <= i < opp(g2, true).len() implies !better(
            g,
            #[trigger] opp(g2, true)[i],
            true,
        ) by {
            assert(opp(g2, true)[i] == g2.right()[i]);
        }
        lemma_absorbed_not_better(g.left()[j], g, g2, true);
    }
    assert forall|i: int| 0 <= i < g.right().len() implies !ge(g2, #[trigger] g.right()[i]) by {
        assert forall|j: int| 0 <= j < opp(g2, false).len() implies !better(
            g,
            #[trigger] opp(g2, false)[j],
            false,
        ) by {
            assert(opp(g2, false)[j] == g2.left()[j]);
        }
        lemma_absorbed_not_better(g.right()[i], g, g2, false);
    }
}

/// Result of comparing two forms in the order in which options are listed.
#[derive(Debug, Clone, Copy, PartialEq, Eq, Structural)]
pub enum Order {
    Less,
    Equal,
    Greater,
}

/// The order of two integers.
pub open spec fn int_order(a: int, b: int) -> Order {
    if a < b {
        Order::Less
    } else if a == b {
        Order::Equal
    } else {
        Order::Greater
    }
}

/// `first`, unless it is `Equal`: then `second`.
pub open spec fn order_then(first: Order, second: Order) -> Order {
    if first is Equal {
        second
    } else {
        first
    }
}

/// Number-up-stars are listed by numerator, then exponent, ups and star.
pub open spec fn nus_order(a: NumberUpStar, b: NumberUpStar) -> Order {
    order_then(
        int_order(a.number.num, b.number.num),
        order_then(
            int_order(a.number.exp as int, b.number.exp as int),
            order_then(int_order(a.ups, b.ups), int_order(a.star as int, b.star as int)),
        ),
    )
}

/// The order in which options are listed: number-up-stars first, games
/// given by options after them, by their Left options and then by their Right options.
pub open spec fn form_order(a: Form, b: Form) -> Order
    decreases a, 0nat,
{
    match (a, b) {
        (Form::Nus(x), Form::Nus(y)) => nus_order(x, y),
        (Form::Nus(_), Form::Moves(_, _)) => Order::Less,
        (Form::Moves(_, _), Form::Nus(_)) => Order::Greater,
        (Form::Moves(l1, r1), Form::Moves(l2, r2)) => order_then(
            seq_order(l1, l2, 0),
            seq_order(r1, r2, 0),
        ),
    }
}

/// Sequences from index `k` on are ordered form by form; a sequence that
/// ends first comes first.
pub open spec fn seq_order(s: Seq<Form>, t: Seq<Form>, k: nat) -> Order
    decreases s, s.len() - k,
{
    if k >= s.len() {
        if k >= t.len() {
            Order::Equal
        } else {
            Order::Less
        }
    } else if k >= t.len() {
        Order::Greater
    } else {
        order_then(form_order(s[k as int], t[k as int]), seq_order(s, t, k + 1))
    }
}

/// The form at `i` comes strictly before the next one.
pub open spec fn in_order(s: Seq<Form>, i: int) -> bool {
    form_order(s[i], s[i + 1]) is Less
}

/// Each form comes strictly before the next one.
pub open spec fn sorted(s: Seq<Form>) -> bool {
    forall|i: int| 0 <= i < s.len() - 1 ==> #[trigger] in_order(s, i)
}

/// Two forms are listed at the same place only if they are the same form.
pub proof fn lemma_order_equal(a: Form, b: Form)
    ensures
        form_order(a, b) is Equal <==> a == b,
    decreases a, 0nat,
{
    match (a, b) {
        (Form::Moves(l1, r1), Form::Moves(l2, r2)) => {
            lemma_seq_order_equal(l1, l2, 0);
            lemma_seq_order_equal(r1, r2, 0);
            if form_order(a, b) is Equal {
                assert(l1 =~= l2);
                assert(r1 =~= r2);
            }
        },
        _ => {},
    }
}

/// Two sequences are listed at the same place only if they are the same from `k` on.
pub proof fn lemma_seq_order_equal(s: Seq<Form>, t: Seq<Form>, k: nat)
    requires
        k <= s.len(),
        k <= t.len(),
    ensures
        seq_order(s, t, k) is Equal <==> (s.len() == t.len() && forall|i: int|
            k <= i < s.len() ==> s[i] == t[i]),
    decreases s, s.len() - k,
{
    if k < s.len() && k < t.len() {
        lemma_order_equal(s[k as int], t[k as int]);
        lemma_seq_order_equal(s, t, k + 1);
    }
}

/// If `a` comes after `b`, then `b` comes before `a`, and the other way round.
pub proof fn lemma_order_antisymmetric(a: Form, b: Form)
    ensures
        form_order(a, b) is Greater <==> form_order(b, a) is Less,
        form_order(a, b) is Less <==> form_order(b, a) is Greater,
        form_order(a, b) is Equal <==> form_order(b, a) is Equal,
    decreases a, 0nat,
{
    match (a, b) {
        (Form::Moves(l1, r1), Form::Moves(l2, r2)) => {
            lemma_seq_order_antisymmetric(l1, l2, 0);
            lemma_seq_order_antisymmetric(r1, r2, 0);
        },
        _ => {},
    }
}

/// The same for sequences.
pub proof fn lemma_seq_order_antisymmetric(s: Seq<Form>, t: Seq<Form>, k: nat)
    ensures
        seq_order(s, t, k) is Greater <==> seq_order(t, s, k) is Less,
        seq_order(s, t, k) is Less <==> seq_order(t, s, k) is Greater,
        seq_order(s, t, k) is Equal <==> seq_order(t, s, k) is Equal,
    decreases s, s.len() - k,
{
    if k < s.len() && k < t.len() {
        lemma_order_antisymmetric(s[k as int], t[k as int]);
        lemma_seq_order_antisymmetric(s, t, k + 1);
    }
}

/// The listing order is transitive.
pub proof fn lemma_order_transitive(a: Form, b: Form, c: Form)
    requires
        form_order(a, b) is Less,
        form_order(b, c) is Less,
    ensures
        form_order(a, c) is Less,
    decreases a, 0nat,
{
    match (a, b, c) {
        (Form::Moves(l1, r1), Form::Moves(l2, r2), Form::Moves(l3, r3)) => {
            lemma_seq_order_equal(l1, l2, 0);
            lemma_seq_order_equal(l2, l3, 0);
            lemma_seq_order_equal(l1, l3, 0);
            if seq_order(l1, l2, 0) is Less && seq_order(l2, l3, 0) is Less {
                lemma_seq_order_transitive(l1, l2, l3, 0);
            } else if seq_order(l1, l2, 0) is Less {
                assert(l2 =~= l3);
            } else if seq_order(l2, l3, 0) is Less {
                assert(l1 =~= l2);
            } else {
                assert(l1 =~= l2);
                assert(l2 =~= l3);
                lemma_seq_order_transitive(r1, r2, r3, 0);
            }
        },
        _ => {},
    }
}

/// The same for sequences.
pub proof fn lemma_seq_order_transitive(s: Seq<Form>, t: Seq<Form>, u: Seq<Form>, k: nat)
    requires
        seq_order(s, t, k) is Less,
        seq_order(t, u, k) is Less,
    ensures
        seq_order(s, u, k) is Less,
    decreases s, s.len() - k,
{
    if k < s.len() && k < t.len() && k < u.len() {
        let c1 = form_order(s[k as int], t[k as int]);
        let c2 = form_order(t[k as int], u[k as int]);
        lemma_order_equal(s[k as int], t[k as int]);
        lemma_order_equal(t[k as int], u[k as int]);
        lemma_order_equal(s[k as int], u[k as int]);
        if c1 is Less && c2 is Less {
            lemma_order_transitive(s[k as int], t[k as int], u[k as int]);
        } else if c1 is Equal && c2 is Equal {
            lemma_seq_order_transitive(s, t, u, k + 1);
        }
    }
}

/// In a sorted sequence every form comes strictly before all later ones.
pub proof fn lemma_sorted_pairwise(s: Seq<Form>, i: int, j: int)
    requires
        sorted(s),
        0 <= i < j < s.len(),
    ensures
        form_order(s[i], s[j]) is Less,
        s[i] != s[j],
    decreases j - i,
{
    if j == i + 1 {
        assert(in_order(s, i));
    } else {
        lemma_sorted_pairwise(s, i, j - 1);
        assert(in_order(s, j - 1));
        lemma_order_transitive(s[i], s[j - 1], s[j]);
    }
    lemma_order_equal(s[i], s[j]);
}

/// Two sorted sequences that hold the same forms are the same sequence.
pub proof fn lemma_sorted_same(s: Seq<Form>, t: Seq<Form>)
    requires
        sorted(s),
        sorted(t),
        forall|i: int| 0 <= i < s.len() ==> t.contains(#[trigger] s[i]),
        forall|i: int| 0 <= i < t.len() ==> s.contains(#[trigger] t[i]),
    ensures
        s == t,
    decreases s.len(),
{
    if s.len() == 0 {
        if t.len() > 0 {
            assert(s.contains(t[0]));
        }
        assert(s =~= t);
    } else {
        assert(t.contains(s[0]));
        let a = choose|a: int| 0 <= a < t.len() && t[a] == s[0];
        assert(s.contains(t[0]));
        let b = choose|b: int| 0 <= b < s.len() && s[b] == t[0];
        if a > 0 {
            lemma_sorted_pairwise(t, 0, a);
            if b > 0 {
                lemma_sorted_pairwise(s, 0, b);
                lemma_order_transitive(t[0], s[0], t[0]);
            }
            lemma_order_equal(t[0], t[0]);
            assert(false);
        }
        let s1 = s.skip(1);
        let t1 = t.skip(1);
        assert forall|i: int| 0 <= i < s1.len() - 1 implies #[trigger] in_order(s1, i) by {
            assert(in_order(s, i + 1));
        }
        assert forall|i: int| 0 <= i < t1.len() - 1 implies #[trigger] in_order(t1, i) by {
            assert(in_order(t, i + 1));
        }
        assert forall|i: int| 0 <= i < s1.len() implies t1.contains(#[trigger] s1[i]) by {
            assert(s1[i] == s[i + 1]);
            assert(t.contains(s[i + 1]));
            let c = choose|c: int| 0 <= c < t.len() && t[c] == s[i + 1];
            lemma_sorted_pairwise(s, 0, i + 1);
            assert(t1[c - 1] == t[c]);
        }
        assert forall|i: int| 0 <= i < t1.len() implies s1.contains(#[trigger] t1[i]) by {
            assert(t1[i] == t[i + 1]);
            assert(s.contains(t[i + 1]));
            let c = choose|c: int| 0 <= c < s.len() && s[c] == t[i + 1];
            lemma_sorted_pairwise(t, 0, i + 1);
            assert(s1[c - 1] == s[c]);
        }
        lemma_sorted_same(s1, t1);
        assert(s =~= seq![s[0]] + s1);
        assert(t =~= seq![t[0]] + t1);
    }
}

/// A number-up-star is determined by its options.
pub proof fn lemma_expansion_injective(n: NumberUpStar, m: NumberUpStar)
    requires
        n.wf(),
        m.wf(),
        nus_forms(n.left()) == nus_forms(m.left()),
        nus_forms(n.right()) == nus_forms(m.right()),
    ensures
        n == m,
{
    assert(n.left().len() == nus_forms(n.left()).len());
    assert(m.left().len() == nus_forms(m.left()).len());
    assert(n.right().len() == nus_forms(n.right()).len());
    assert(m.right().len() == nus_forms(m.right()).len());
    assert forall|i: int| 0 <= i < n.left().len() implies n.left()[i] == m.left()[i] by {
        assert(nus_forms(n.left())[i] == Form::Nus(n.left()[i]));
        assert(nus_forms(m.left())[i] == Form::Nus(m.left()[i]));
    }
    assert forall|i: int| 0 <= i < n.right().len() implies n.right()[i] == m.right()[i] by {
        assert(nus_forms(n.right())[i] == Form::Nus(n.right()[i]));
        assert(nus_forms(m.right())[i] == Form::Nus(m.right()[i]));
    }
    assert(n.left() =~= m.left());
    assert(n.right() =~= m.right());
    n.lemma_read_off();
    m.lemma_read_off();
}

/// No form of `s` is made needless by another one that is at least as
/// good for the player.
pub open spec fn no_dominated(s: Seq<Form>, left: bool) -> bool {
    forall|i: int, j: int|
        0 <= i < s.len() && 0 <= j < s.len() && i != j ==> !better(
            #[trigger] s[i],
            #[trigger] s[j],
            left,
        )
}

/// The other player has no answer to `o` that is at least as good for the
/// player as `g`.
pub open spec fn not_reversible(o: Form, g: Form, left: bool) -> bool {
    forall|i: int| 0 <= i < opp(o, left).len() ==> !better(g, #[trigger] opp(o, left)[i], left)
}

/// No option of the player in `f` is reversible.
pub open spec fn no_reversible(f: Form, left: bool) -> bool {
    forall|j: int| 0 <= j < own(f, left).len() ==> not_reversible(#[trigger] own(f, left)[j], f, left)
}

/// The options are those of the number-up-star `n`.
pub open spec fn expands(n: NumberUpStar, l: Seq<Form>, r: Seq<Form>) -> bool {
    n.storable() && nus_forms(n.left()) == l && nus_forms(n.right()) == r
}

/// Every form in `s` is canonical.
pub open spec fn all_canonical(s: Seq<Form>) -> bool {
    forall|i: int| 0 <= i < s.len() ==> (#[trigger] s[i]).canonical()
}

/// A game with canonical options is in simplest form: no option is
/// dominated or reversible, each side is listed in order, and the game is
/// no number-up-star written out.
#[verifier::opaque]
pub open spec fn simplest(l: Seq<Form>, r: Seq<Form>) -> bool {
    &&& no_dominated(l, true)
    &&& no_dominated(r, false)
    &&& no_reversible(Form::Moves(l, r), true)
    &&& no_reversible(Form::Moves(l, r), false)
    &&& sorted(l)
    &&& sorted(r)
    &&& forall|n: NumberUpStar| !#[trigger] expands(n, l, r)
}

impl Form {
    /// The form is canonical: a well-formed number-up-star that can be
    /// stored, or a game in simplest form whose options are canonical.
    pub open spec fn canonical(self) -> bool
        decreases self,
    {
        match self {
            Form::Nus(n) => n.storable(),
            Form::Moves(l, r) => {
                &&& (forall|i: int| 0 <= i < l.len() ==> (#[trigger] l[i]).canonical())
                &&& (forall|i: int| 0 <= i < r.len() ==> (#[trigger] r[i]).canonical())
                &&& simplest(l, r)
            },
        }
    }

    /// A canonical form is well-formed, and so are its options, which are canonical.
    pub proof fn lemma_canonical(self)
        requires
            self.canonical(),
        ensures
            self.wf(),
            self.fits(),
            all_canonical(self.left()),
            all_canonical(self.right()),
        decreases self,
    {
        match self {
            Form::Nus(n) => {
                n.lemma_options();
            },
            Form::Moves(l, r) => {
                assert forall|i: int| 0 <= i < l.len() implies (#[trigger] l[i]).storable() by {
                    l[i].lemma_canonical();
                }
                assert forall|i: int| 0 <= i < r.len() implies (#[trigger] r[i]).storable() by {
                    r[i].lemma_canonical();
                }
            },
        }
    }
}

/// Games with the same options compare alike with every game.
pub proof fn lemma_same_options(a: Form, b: Form, c: Form)
    requires
        a.wf(),
        b.wf(),
        c.wf(),
        a.left() == b.left(),
        a.right() == b.right(),
    ensures
        ge(a, c) == ge(b, c),
        ge(c, a) == ge(c, b),
        equal_value(a, b),
{
    a.lemma_options();
    b.lemma_options();
    c.lemma_options();
    lemma_ge_reflexive(a);
    assert(ge(a, b)) by {
        assert forall|i: int| 0 <= i < a.right().len() implies !ge(b, #[trigger] a.right()[i]) by {
            let x = a.right()[i];
            lemma_ge_reflexive(x);
            if ge(b, x) {
                assert(!ge(x, b.right()[i]));
            }
        }
        assert forall|j: int| 0 <= j < b.left().len() implies !ge(#[trigger] b.left()[j], a) by {
            let x = b.left()[j];
            lemma_ge_reflexive(x);
            if ge(x, a) {
                assert(!ge(a.left()[j], x));
            }
        }
    }
    assert(ge(b, a)) by {
        assert forall|i: int| 0 <= i < b.right().len() implies !ge(a, #[trigger] b.right()[i]) by {
            let x = b.right()[i];
            lemma_ge_reflexive(x);
            if ge(a, x) {
                assert(!ge(x, a.right()[i]));
            }
        }
        assert forall|j: int| 0 <= j < a.left().len() implies !ge(#[trigger] a.left()[j], b) by {
            let x = a.left()[j];
            lemma_ge_reflexive(x);
            if ge(x, b) {
                assert(!ge(b.left()[j], x));
            }
        }
    }
    if ge(a, c) {
        lemma_ge_transitive(b, a, c);
    }
    if ge(b, c) {
        lemma_ge_transitive(a, b, c);
    }
    if ge(c, a) {
        lemma_ge_transitive(c, a, b);
    }
    if ge(c, b) {
        lemma_ge_transitive(c, b, a);
    }
}

} // verus!
