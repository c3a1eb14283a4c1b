//! Canonical forms of short partizan games.

use crate::numeric::dyadic_rational_number::Dyadic;
use crate::numeric::dyadic_rational_number::DyadicRationalNumber;
use crate::numeric::nimber::Nimber;
use crate::short::partizan::game_form::absorbed;
use crate::short::partizan::game_form::all_canonical;
use crate::short::partizan::game_form::all_storable;
use crate::short::partizan::game_form::all_wf;
use crate::short::partizan::game_form::better;
use crate::short::partizan::game_form::bypassed;
use crate::short::partizan::game_form::dominated_by;
use crate::short::partizan::game_form::equal_value;
use crate::short::partizan::game_form::lemma_ge_transitive;
use crate::short::partizan::game_form::lemma_same_options;
use crate::short::partizan::game_form::lemma_simplified_equal;
use crate::short::partizan::game_form::simplest;
use crate::short::partizan::game_form::expands;
use crate::short::partizan::game_form::form_order;
use crate::short::partizan::game_form::ge;
use crate::short::partizan::game_form::has_better;
use crate::short::partizan::game_form::in_order;
use crate::short::partizan::game_form::int_order;
use crate::short::partizan::game_form::lemma_absorbed_monotone;
use crate::short::partizan::game_form::lemma_absorbed_unfold;
use crate::short::partizan::game_form::lemma_after_reversal;
use crate::short::partizan::game_form::lemma_better_reflexive;
use crate::short::partizan::game_form::lemma_ge_reflexive;
use crate::short::partizan::game_form::lemma_better_transitive;
use crate::short::partizan::game_form::lemma_order_antisymmetric;
use crate::short::partizan::game_form::lemma_order_equal;
use crate::short::partizan::game_form::lemma_second_options;
use crate::short::partizan::game_form::lemma_side_options;
use crate::short::partizan::game_form::no_dominated;
use crate::short::partizan::game_form::no_reversible;
use crate::short::partizan::game_form::not_reversible;
use crate::short::partizan::game_form::nus_forms;
use crate::short::partizan::game_form::nus_order;
use crate::short::partizan::game_form::opp;
use crate::short::partizan::game_form::order_then;
use crate::short::partizan::game_form::own;
use crate::short::partizan::game_form::seq_order;
use crate::short::partizan::game_form::sorted;
use crate::short::partizan::game_form::Form;
use crate::short::partizan::game_form::NumberUpStar;
use crate::short::partizan::game_form::Order;
use crate::short::partizan::game_sum::adds_by_parts;
use crate::short::partizan::nus_order::lemma_nus_ge;
use crate::short::partizan::nus_order::nus_ge;
use crate::short::partizan::plain_sum::plain_sum;
use crate::short::partizan::number_order::all_numbers;
use crate::short::partizan::number_order::is_number;
use crate::short::partizan::number_order::lemma_simplicity;
use crate::short::partizan::number_order::number;
use crate::short::partizan::number_order::numbers_bounded;
use crate::short::partizan::simplest_form::lemma_canonical_unique;
use crate::short::partizan::game_sum::form_sum;
use crate::short::partizan::game_sum::lemma_congruent;
use crate::short::partizan::game_sum::lemma_equal_value_transitive;
use crate::short::partizan::game_sum::lemma_sum_options;
use crate::short::partizan::sum_theorem::lemma_sum_is_plain;
use crate::short::partizan::simplest_form::canonical_of;
use crate::short::partizan::simplest_form::lemma_canonical_of;
use crate::short::partizan::simplest_form::neg_value;
use crate::short::partizan::simplest_form::sum_value;
use vstd::prelude::*;

verus! {

/// A number-up-star game position that is a sum of a number, up and, nimber.
#[derive(Debug, Clone, Copy, Hash, PartialEq, Eq, Structural)]
pub struct Nus {
    number: DyadicRationalNumber,
    up_multiple: i32,
    nimber: Nimber,
}

impl View for Nus {
    type V = NumberUpStar;

    closed spec fn view(&self) -> NumberUpStar {
        NumberUpStar { number: self.number@, ups: self.up_multiple as int, star: self.nimber@ }
    }
}

impl Nus {
    /// Create new number-up-star game equal to `number + up_multiple * ↑ + nimber`.
    pub fn new(number: DyadicRationalNumber, up_multiple: i32, nimber: Nimber) -> (nus: Self)
        requires
            number.wf(),
            up_multiple > i32::MIN,
        ensures
            nus@.storable(),
            nus@ == (NumberUpStar { number: number@, ups: up_multiple as int, star: nimber@ }),
    {
        Nus { number, up_multiple, nimber }
    }

    /// Create new number-up-star game equal to an integer.
    pub fn new_integer(integer: i64) -> (nus: Self)
        requires
            integer > i64::MIN,
        ensures
            nus@.storable(),
            nus@ == NumberUpStar::integer(integer as int),
    {
        Nus {
            number: DyadicRationalNumber::new_integer(integer),
            up_multiple: 0,
            nimber: Nimber::new(0),
        }
    }

    /// Create new number-up-star game equal to a number.
    pub fn new_number(number: DyadicRationalNumber) -> (nus: Self)
        requires
            number.wf(),
        ensures
            nus@.storable(),
            nus@ == NumberUpStar::of_number(number@),
    {
        Nus { number, up_multiple: 0, nimber: Nimber::new(0) }
    }

    /// Create new number-up-star game equal to a nimber.
    pub fn new_nimber(nimber: Nimber) -> (nus: Self)
        ensures
            nus@.storable(),
            nus@ == NumberUpStar::zero().with(0, nimber@),
    {
        Nus { number: DyadicRationalNumber::new_integer(0), up_multiple: 0, nimber }
    }

    /// Get number part of the sum.
    pub fn number(&self) -> (number: DyadicRationalNumber)
        ensures
            number@ == self@.number,
    {
        self.number
    }

    /// Get up/down part of the sum. Positive for up, negative for down.
    pub fn up_multiple(&self) -> (ups: i32)
        ensures
            ups == self@.ups,
    {
        self.up_multiple
    }

    /// Get nimber part of the sum.
    pub fn nimber(&self) -> (nimber: Nimber)
        ensures
            nimber@ == self@.star,
    {
        self.nimber
    }

    /// Check if the game has only number part (i.e. up multiple and nimber are zero).
    pub fn is_number(&self) -> (b: bool)
        ensures
            b == self@.is_number(),
    {
        self.up_multiple == 0 && self.nimber.value() == 0
    }

    /// Whether both are the same number-up-star.
    pub fn equals(&self, other: &Nus) -> (b: bool)
        ensures
            b == (self@ == other@),
    {
        self.number.equals(&other.number) && self.up_multiple == other.up_multiple
            && self.nimber.value() == other.nimber.value()
    }

    /// The place of `self` relative to `other` where options are listed.
    pub fn compare(&self, other: &Nus) -> (o: Order)
        ensures
            o == nus_order(self@, other@),
    {
        if self.number.numerator() < other.number.numerator() {
            Order::Less
        } else if self.number.numerator() > other.number.numerator() {
            Order::Greater
        } else if self.number.denominator_exponent() < other.number.denominator_exponent() {
            Order::Less
        } else if self.number.denominator_exponent() > other.number.denominator_exponent() {
            Order::Greater
        } else if self.up_multiple < other.up_multiple {
            Order::Less
        } else if self.up_multiple > other.up_multiple {
            Order::Greater
        } else if self.nimber.value() < other.nimber.value() {
            Order::Less
        } else if self.nimber.value() > other.nimber.value() {
            Order::Greater
        } else {
            Order::Equal
        }
    }

    /// Whether `self >= other` in the order of games: the larger number
    /// part decides; with the same number part, the multiple of up that is
    /// larger by two or more, or by one unless the nimbers differ by one;
    /// with the same multiple of up, only the same nimber.
    pub fn geq(&self, other: &Nus) -> (b: bool)
        requires
            self@.storable(),
            other@.storable(),
        ensures
            b == nus_ge(self@, other@),
            b == ge(Form::Nus(self@), Form::Nus(other@)),
    {
        proof {
            lemma_nus_ge(self@, other@);
        }
        if !self.number.equals(&other.number) {
            other.number.lt(&self.number)
        } else {
            let d = self.up_multiple as i64 - other.up_multiple as i64;
            let s = self.nimber.value();
            let t = other.nimber.value();
            assert((s ^ t) == 0 <==> s == t) by (bit_vector);
            d >= 2 || (d == 1 && (s ^ t) != 1) || (d == 0 && (s ^ t) == 0)
        }
    }

    /// The negative: number and ups change sign, the nimber stays.
    pub fn neg(&self) -> (nus: Self)
        requires
            self@.storable(),
        ensures
            nus@.storable(),
            nus@ == self@.neg(),
    {
        Nus { number: self.number.neg(), up_multiple: -self.up_multiple, nimber: self.nimber }
    }

    /// The sum, part by part, if it can be stored.
    pub fn checked_add(&self, other: &Nus) -> (r: Option<Self>)
        requires
            self@.storable(),
            other@.storable(),
        ensures
            r is Some <==> self@.add(other@).storable(),
            r matches Some(nus) ==> nus@ == self@.add(other@),
    {
        proof {
            let sum = Dyadic {
                num: self@.number.scaled(self@.number.common_exp(other@.number))
                    + other@.number.scaled(self@.number.common_exp(other@.number)),
                exp: self@.number.common_exp(other@.number),
            };
            sum.lemma_reduce();
        }
        let ups = self.up_multiple as i64 + other.up_multiple as i64;
        if ups < -(i32::MAX as i64) || ups > i32::MAX as i64 {
            return None;
        }
        match self.number.checked_add(&other.number) {
            Some(number) => Some(
                Nus { number, up_multiple: ups as i32, nimber: self.nimber.add(&other.nimber) },
            ),
            None => None,
        }
    }

    /// The same number with other infinitesimal parts.
    fn with(&self, up_multiple: i32, nimber: u32) -> (nus: Self)
        ensures
            nus@ == self@.with(up_multiple as int, nimber),
    {
        Nus { number: self.number, up_multiple, nimber: Nimber::new(nimber) }
    }

    /// The nimbers `number + *0`, ..., `number + *(nimber - 1)`.
    fn smaller_nimbers(&self) -> (moves: Vec<Nus>)
        ensures
            moves@.len() == self@.star,
            forall|j: int| 0 <= j < moves@.len() ==> (#[trigger] moves@[j])@ == self@.with(0, j as u32),
    {
        let mut moves: Vec<Nus> = Vec::new();
        let mut j: u32 = 0;
        while j < self.nimber.value()
            invariant
                j <= self@.star,
                moves@.len() == j,
                forall|i: int| 0 <= i < moves@.len() ==> (#[trigger] moves@[i])@ == self@.with(0, i as u32),
            decreases self@.star - j,
        {
            moves.push(self.with(0, j));
            j += 1;
        }
        moves
    }

    /// The Left options.
    pub fn left_moves(&self) -> (moves: Vec<Nus>)
        requires
            self@.storable(),
        ensures
            moves@.map_values(|n: Nus| n@) == self@.left(),
    {
        let p = self.number.numerator();
        let q = self.number.denominator_exponent();
        let mut moves: Vec<Nus> = Vec::new();
        if self.is_number() {
            if q == 0 {
                if p > 0 {
                    moves.push(Nus::new_integer(p - 1));
                }
            } else {
                proof {
                    let x = self@.number;
                    assert((x.num - 1) % 2 == 0);
                    assert(NumberUpStar::number_below(x) == (Dyadic {
                        num: (x.num - 1) / 2,
                        exp: (x.exp - 1) as nat,
                    }).reduce());
                }
                moves.push(Nus::new_number(DyadicRationalNumber::new((p - 1) / 2, q - 1)));
            }
        } else if self.up_multiple == 0 {
            moves = self.smaller_nimbers();
        } else if self.up_multiple == 1 && self.nimber.value() == 1 {
            moves.push(self.with(0, 0));
            moves.push(self.with(0, 1));
        } else if self.up_multiple > 0 {
            moves.push(self.with(0, 0));
        } else {
            moves.push(self.with(self.up_multiple + 1, self.nimber.value() ^ 1));
        }
        assert(moves@.map_values(|n: Nus| n@) =~= self@.left());
        moves
    }

    /// The Right options.
    pub fn right_moves(&self) -> (moves: Vec<Nus>)
        requires
            self@.storable(),
        ensures
            moves@.map_values(|n: Nus| n@) == self@.right(),
    {
        let p = self.number.numerator();
        let q = self.number.denominator_exponent();
        let mut moves: Vec<Nus> = Vec::new();
        if self.is_number() {
            if q == 0 {
                if p < 0 {
                    moves.push(Nus::new_integer(p + 1));
                }
            } else {
                proof {
                    let x = self@.number;
                    assert((x.num + 1) % 2 == 0);
                    assert((x.num + 1) / 2 == (x.num - 1) / 2 + 1);
                    assert(NumberUpStar::number_above(x) == (Dyadic {
                        num: (x.num + 1) / 2,
                        exp: (x.exp - 1) as nat,
                    }).reduce());
                }
                moves.push(Nus::new_number(DyadicRationalNumber::new((p - 1) / 2 + 1, q - 1)));
            }
        } else if self.up_multiple == 0 {
            moves = self.smaller_nimbers();
        } else if self.up_multiple == -1 && self.nimber.value() == 1 {
            moves.push(self.with(0, 0));
            moves.push(self.with(0, 1));
        } else if self.up_multiple < 0 {
            moves.push(self.with(0, 0));
        } else {
            moves.push(self.with(self.up_multiple - 1, self.nimber.value() ^ 1));
        }
        assert(moves@.map_values(|n: Nus| n@) =~= self@.right());
        moves
    }
}

/// Left and Right moves from a position, each given by its canonical form.
#[derive(Debug, Hash, PartialEq, Eq)]
pub struct Moves {
    /// Left player's moves
    pub left: Vec<CanonicalForm>,
    /// Right player's moves
    pub right: Vec<CanonicalForm>,
}

#[derive(Debug, Hash, PartialEq, Eq)]
enum Shape {
    /// Number-up-star, kept by its three parts
    Nus(Nus),
    /// Any other game, kept by its options
    Moves(Moves),
}

/// Canonical game form
#[derive(Debug, Hash, PartialEq, Eq)]
pub struct CanonicalForm {
    shape: Shape,
}

/// The model of each form, defined along the data structure.
spec fn forms_along(s: Seq<CanonicalForm>) -> Seq<Form>
    decreases s,
{
    if s.len() == 0 {
        Seq::empty()
    } else {
        forms_along(s.drop_last()).push(s.last().form())
    }
}

/// The model of each form.
pub open spec fn forms(s: Seq<CanonicalForm>) -> Seq<Form> {
    Seq::new(s.len(), |i: int| s[i]@)
}

impl View for CanonicalForm {
    type V = Form;

    closed spec fn view(&self) -> Form {
        self.form()
    }
}

impl View for Moves {
    type V = Form;

    /// The game with these options, not simplified.
    open spec fn view(&self) -> Form {
        Form::Moves(forms(self.left@), forms(self.right@))
    }
}

/// Both definitions of the models of a sequence agree.
proof fn lemma_forms_along(s: Seq<CanonicalForm>)
    ensures
        forms_along(s) == forms(s),
    decreases s.len(),
{
    if s.len() > 0 {
        lemma_forms_along(s.drop_last());
    }
    assert(forms_along(s) =~= forms(s));
}

impl CanonicalForm {
    spec fn form(&self) -> Form
        decreases self,
    {
        match self.shape {
            Shape::Nus(nus) => Form::Nus(nus@),
            Shape::Moves(moves) => Form::Moves(
                forms_along(moves.left@),
                forms_along(moves.right@),
            ),
        }
    }

    /// The model of a form kept by its options is the game with the models
    /// of these options.
    proof fn lemma_view(&self)
        ensures
            self.shape matches Shape::Moves(moves) ==> self@ == moves@,
            self.shape matches Shape::Nus(nus) ==> self@ == Form::Nus(nus@),
    {
        match self.shape {
            Shape::Nus(nus) => {},
            Shape::Moves(moves) => {
                lemma_forms_along(moves.left@);
                lemma_forms_along(moves.right@);
            },
        }
    }

    /// Construct number-up-star.
    pub fn new_nus(nus: Nus) -> (cf: Self)
        ensures
            cf@ == Form::Nus(nus@),
            nus@.storable() ==> cf@.canonical(),
    {
        CanonicalForm { shape: Shape::Nus(nus) }
    }

    /// Construct an integer.
    pub fn new_integer(integer: i64) -> (cf: Self)
        requires
            integer > i64::MIN,
        ensures
            cf@ == Form::Nus(NumberUpStar::integer(integer as int)),
            cf@.canonical(),
    {
        Self::new_nus(Nus::new_integer(integer))
    }

    /// Construct a dyadic rational.
    pub fn new_rational(rational: DyadicRationalNumber) -> (cf: Self)
        requires
            rational.wf(),
        ensures
            cf@ == Form::Nus(NumberUpStar::of_number(rational@)),
            cf@.canonical(),
    {
        Self::new_nus(Nus::new_number(rational))
    }

    /// Construct the sum of a number and a nimber.
    pub fn new_nimber(number: DyadicRationalNumber, nimber: Nimber) -> (cf: Self)
        requires
            number.wf(),
        ensures
            cf@ == Form::Nus(NumberUpStar::of_number(number@).with(0, nimber@)),
            cf@.canonical(),
    {
        Self::new_nus(Nus::new(number, 0, nimber))
    }

    /// Zero.
    pub fn zero() -> (cf: Self)
        ensures
            cf@ == Form::zero(),
            cf@.canonical(),
    {
        Self::new_integer(0)
    }

    /// The value as a number-up-star, if it is one.
    pub fn to_nus(&self) -> (r: Option<Nus>)
        ensures
            match r {
                Some(nus) => self@ == Form::Nus(nus@),
                None => self@ is Moves,
            },
    {
        proof {
            self.lemma_view();
        }
        match &self.shape {
            Shape::Nus(nus) => Some(*nus),
            Shape::Moves(_) => None,
        }
    }

    /// Whether the value is a number.
    pub fn is_number(&self) -> (b: bool)
        ensures
            b == (self@ matches Form::Nus(n) && n.is_number()),
    {
        proof {
            self.lemma_view();
        }
        match &self.shape {
            Shape::Nus(nus) => nus.is_number(),
            Shape::Moves(_) => false,
        }
    }

    /// A copy of the form.
    pub fn duplicate(&self) -> (cf: Self)
        ensures
            cf@ == self@,
        decreases self,
    {
        proof {
            self.lemma_view();
        }
        let cf = match &self.shape {
            Shape::Nus(nus) => CanonicalForm { shape: Shape::Nus(*nus) },
            Shape::Moves(moves) => CanonicalForm {
                shape: Shape::Moves(
                    Moves {
                        left: Self::duplicate_all(&moves.left),
                        right: Self::duplicate_all(&moves.right),
                    },
                ),
            },
        };
        proof {
            cf.lemma_view();
        }
        cf
    }

    /// A copy of each form.
    pub fn duplicate_all(list: &Vec<CanonicalForm>) -> (copies: Vec<CanonicalForm>)
        ensures
            forms(copies@) == forms(list@),
        decreases list,
    {
        let mut copies: Vec<CanonicalForm> = Vec::new();
        let mut i: usize = 0;
        while i < list.len()
            invariant
                i <= list@.len(),
                copies@.len() == i,
                forall|k: int| 0 <= k < i ==> (#[trigger] copies@[k])@ == list@[k]@,
            decreases list@.len() - i,
        {
            copies.push(list[i].duplicate());
            i += 1;
        }
        assert(forms(copies@) =~= forms(list@));
        copies
    }

    /// The number-up-stars as canonical forms.
    fn from_nus_list(list: Vec<Nus>) -> (options: Vec<CanonicalForm>)
        ensures
            forms(options@) == nus_forms(list@.map_values(|n: Nus| n@)),
    {
        let mut options: Vec<CanonicalForm> = Vec::new();
        let mut i: usize = 0;
        while i < list.len()
            invariant
                i <= list@.len(),
                options@.len() == i,
                forall|k: int| 0 <= k < i ==> (#[trigger] options@[k])@ == Form::Nus(list@[k]@),
            decreases list@.len() - i,
        {
            options.push(Self::new_nus(list[i]));
            i += 1;
        }
        assert(forms(options@) =~= nus_forms(list@.map_values(|n: Nus| n@)));
        options
    }

    /// The game written out by its options.
    pub fn to_moves(&self) -> (moves: Moves)
        requires
            self@.storable(),
        ensures
            moves@ == Form::Moves(self@.left(), self@.right()),
    {
        Moves { left: self.left_options(), right: self.right_options() }
    }

    /// The Left options.
    pub fn left_options(&self) -> (options: Vec<CanonicalForm>)
        requires
            self@.storable(),
        ensures
            forms(options@) == self@.left(),
    {
        proof {
            self.lemma_view();
        }
        match &self.shape {
            Shape::Nus(nus) => Self::from_nus_list(nus.left_moves()),
            Shape::Moves(moves) => Self::duplicate_all(&moves.left),
        }
    }

    /// The Right options.
    pub fn right_options(&self) -> (options: Vec<CanonicalForm>)
        requires
            self@.storable(),
        ensures
            forms(options@) == self@.right(),
    {
        proof {
            self.lemma_view();
        }
        match &self.shape {
            Shape::Nus(nus) => Self::from_nus_list(nus.right_moves()),
            Shape::Moves(moves) => Self::duplicate_all(&moves.right),
        }
    }

    /// Whether no form of `options` is at most `other`.
    fn none_leq(options: &Vec<CanonicalForm>, other: &CanonicalForm, Ghost(bound): Ghost<nat>) -> (b: bool)
        requires
            other@.storable(),
            forall|i: int|
                0 <= i < options@.len() ==> (#[trigger] options@[i])@.storable() && options@[i]@.rank()
                    + other@.rank() < bound,
        ensures
            b == (forall|i: int| 0 <= i < options@.len() ==> !ge(other@, #[trigger] forms(options@)[i])),
        decreases bound, 0int,
    {
        let mut i: usize = 0;
        while i < options.len()
            invariant
                i <= options@.len(),
                other@.storable(),
                forall|i: int|
                    0 <= i < options@.len() ==> (#[trigger] options@[i])@.storable()
                        && options@[i]@.rank() + other@.rank() < bound,
                forall|k: int| 0 <= k < i ==> !ge(other@, #[trigger] forms(options@)[k]),
            decreases options@.len() - i,
        {
            if other.geq(&options[i]) {
                assert(ge(other@, forms(options@)[i as int]));
                return false;
            }
            i += 1;
        }
        true
    }

    /// Whether no form of `options` is at least `other`.
    fn none_geq(options: &Vec<CanonicalForm>, other: &CanonicalForm, Ghost(bound): Ghost<nat>) -> (b: bool)
        requires
            other@.storable(),
            forall|i: int|
                0 <= i < options@.len() ==> (#[trigger] options@[i])@.storable() && options@[i]@.rank()
                    + other@.rank() < bound,
        ensures
            b == (forall|i: int| 0 <= i < options@.len() ==> !ge(#[trigger] forms(options@)[i], other@)),
        decreases bound, 0int,
    {
        let mut i: usize = 0;
        while i < options.len()
            invariant
                i <= options@.len(),
                other@.storable(),
                forall|i: int|
                    0 <= i < options@.len() ==> (#[trigger] options@[i])@.storable()
                        && options@[i]@.rank() + other@.rank() < bound,
                forall|k: int| 0 <= k < i ==> !ge(#[trigger] forms(options@)[k], other@),
            decreases options@.len() - i,
        {
            if options[i].geq(other) {
                assert(ge(forms(options@)[i as int], other@));
                return false;
            }
            i += 1;
        }
        true
    }

    /// Whether `self >= other` in the order of games: no Right option of
    /// `self` is at most `other`, and no Left option of `other` is at least
    /// `self`. Two number-up-stars are compared by their parts.
    pub fn geq(&self, other: &CanonicalForm) -> (b: bool)
        requires
            self@.storable(),
            other@.storable(),
        ensures
            b == ge(self@, other@),
        decreases self@.rank() + other@.rank(), 1int,
    {
        let ghost bound = self@.rank() + other@.rank();
        proof {
            self.lemma_view();
            other.lemma_view();
            self@.lemma_options();
            other@.lemma_options();
        }
        // number-up-stars are ordered by their parts
        match (&self.shape, &other.shape) {
            (Shape::Nus(a), Shape::Nus(b)) => {
                return a.geq(b);
            },
            _ => {},
        }
        let no_right = match &self.shape {
            Shape::Nus(nus) => {
                let options = Self::from_nus_list(nus.right_moves());
                assert forall|i: int| 0 <= i < options@.len() implies (#[trigger] options@[i])@
                    == self@.right()[i] by {
                    assert(forms(options@)[i] == options@[i]@);
                }
                Self::none_leq(&options, other, Ghost(bound))
            },
            Shape::Moves(moves) => {
                assert forall|i: int| 0 <= i < moves.right@.len() implies (
                #[trigger] moves.right@[i])@ == self@.right()[i] by {
                    assert(forms(moves.right@)[i] == moves.right@[i]@);
                }
                Self::none_leq(&moves.right, other, Ghost(bound))
            },
        };
        if !no_right {
            return false;
        }
        match &other.shape {
            Shape::Nus(nus) => {
                let options = Self::from_nus_list(nus.left_moves());
                assert forall|i: int| 0 <= i < options@.len() implies (#[trigger] options@[i])@
                    == other@.left()[i] by {
                    assert(forms(options@)[i] == options@[i]@);
                }
                Self::none_geq(&options, self, Ghost(bound))
            },
            Shape::Moves(moves) => {
                assert forall|i: int| 0 <= i < moves.left@.len() implies (
                #[trigger] moves.left@[i])@ == other@.left()[i] by {
                    assert(forms(moves.left@)[i] == moves.left@[i]@);
                }
                Self::none_geq(&moves.left, self, Ghost(bound))
            },
        }
    }

    /// Whether `self <= other` in the order of games.
    pub fn leq(&self, other: &CanonicalForm) -> (b: bool)
        requires
            self@.storable(),
            other@.storable(),
        ensures
            b == ge(other@, self@),
    {
        other.geq(self)
    }
}

/// `longer` starts with `shorter`.
pub open spec fn extends(shorter: Seq<Form>, longer: Seq<Form>) -> bool {
    &&& shorter.len() <= longer.len()
    &&& forall|i: int| 0 <= i < shorter.len() ==> longer[i] == shorter[i]
}

/// Every form of `part` is one of `whole`.
pub open spec fn subset_of(part: Seq<Form>, whole: Seq<Form>) -> bool {
    forall|i: int| 0 <= i < part.len() ==> whole.contains(#[trigger] part[i])
}

/// What holds of an option of the player that stays in the simplified game
/// with the value of `g`: it is canonical, not at least as good for the
/// player as `g`, and not reversible.
pub open spec fn kept_ok(e: Form, g: Form, left: bool) -> bool {
    &&& e.wf()
    &&& e.canonical()
    &&& !better(e, g, left)
    &&& not_reversible(e, g, left)
}

/// `kept_ok` of every form.
pub open spec fn all_kept_ok(s: Seq<Form>, g: Form, left: bool) -> bool {
    forall|k: int| 0 <= k < s.len() ==> kept_ok(#[trigger] s[k], g, left)
}

/// A sequence that starts with another one dominates it.
pub proof fn lemma_extends_dominates(shorter: Seq<Form>, longer: Seq<Form>, left: bool)
    requires
        all_wf(longer),
        extends(shorter, longer),
    ensures
        dominated_by(shorter, longer, left),
        all_wf(shorter),
{
    assert forall|a: int| 0 <= a < shorter.len() implies has_better(
        longer,
        #[trigger] shorter[a],
        left,
    ) by {
        lemma_better_reflexive(longer[a], left);
        assert(better(longer[a], shorter[a], left));
    }
    assert forall|a: int| 0 <= a < shorter.len() implies (#[trigger] shorter[a]).wf() by {
        assert(longer[a].wf());
    }
}

/// Forms that are `kept_ok` are well-formed.
pub proof fn lemma_kept_wf(s: Seq<Form>, g: Form, left: bool)
    requires
        all_kept_ok(s, g, left),
    ensures
        all_wf(s),
        all_storable(s),
{
    assert forall|i: int| 0 <= i < s.len() implies (#[trigger] s[i]).storable() by {
        assert(kept_ok(s[i], g, left));
        s[i].lemma_canonical();
    }
}

impl CanonicalForm {
    /// The place of `self` relative to `other` where options are listed.
    pub fn compare(&self, other: &CanonicalForm) -> (o: Order)
        ensures
            o == form_order(self@, other@),
        decreases self,
    {
        proof {
            self.lemma_view();
            other.lemma_view();
        }
        match (&self.shape, &other.shape) {
            (Shape::Nus(a), Shape::Nus(b)) => a.compare(b),
            (Shape::Nus(_), Shape::Moves(_)) => Order::Less,
            (Shape::Moves(_), Shape::Nus(_)) => Order::Greater,
            (Shape::Moves(a), Shape::Moves(b)) => {
                let c = Self::compare_lists(&a.left, &b.left);
                match c {
                    Order::Equal => Self::compare_lists(&a.right, &b.right),
                    _ => c,
                }
            },
        }
    }

    /// The place of the list `s` relative to `t`, form by form.
    fn compare_lists(s: &Vec<CanonicalForm>, t: &Vec<CanonicalForm>) -> (o: Order)
        ensures
            o == seq_order(forms(s@), forms(t@), 0),
        decreases s,
    {
        let mut k: usize = 0;
        loop
            invariant
                k <= s@.len(),
                k <= t@.len(),
                seq_order(forms(s@), forms(t@), 0) == seq_order(forms(s@), forms(t@), k as nat),
            decreases s@.len() - k,
        {
            if k >= s.len() {
                if k >= t.len() {
                    return Order::Equal;
                } else {
                    return Order::Less;
                }
            }
            if k >= t.len() {
                return Order::Greater;
            }
            let c = s[k].compare(&t[k]);
            assert(forms(s@)[k as int] == s@[k as int]@ && forms(t@)[k as int] == t@[k as int]@);
            match c {
                Order::Equal => {},
                _ => {
                    return c;
                },
            }
            k += 1;
        }
    }

    /// Whether both are the same form. Of canonical forms this is whether
    /// they are equal as games: each at least the other one.
    pub fn equals(&self, other: &CanonicalForm) -> (b: bool)
        ensures
            b == (self@ == other@),
            self@.canonical() && other@.canonical() ==> b == equal_value(self@, other@),
    {
        proof {
            lemma_order_equal(self@, other@);
            if self@.canonical() && other@.canonical() {
                self@.lemma_canonical();
                lemma_ge_reflexive(self@);
                if equal_value(self@, other@) {
                    lemma_canonical_unique(self@, other@);
                }
            }
        }
        match self.compare(other) {
            Order::Equal => true,
            _ => false,
        }
    }

    /// Appends to `out` what stands for `option` once the reversible options
    /// of the player are bypassed: `option` itself, or, if the other player
    /// has an answer to it that is at least as good for the player as
    /// `target`, what stands for the player's options after that answer.
    fn resolve(
        option: &CanonicalForm,
        target: &CanonicalForm,
        left: bool,
        out: &mut Vec<CanonicalForm>,
    )
        requires
            option@.canonical(),
            target@.storable(),
            !better(option@, target@, left),
            all_kept_ok(forms(old(out)@), target@, left),
        ensures
            extends(forms(old(out)@), forms(final(out)@)),
            all_kept_ok(forms(final(out)@), target@, left),
            absorbed(option@, target@, forms(final(out)@), left),
            not_reversible(option@, target@, left) ==> forms(final(out)@) == forms(old(out)@).push(
                option@,
            ),
        decreases option@.rank(),
    {
        let ghost start = forms(out@);
        proof {
            option@.lemma_canonical();
            lemma_side_options(option@, left);
            lemma_second_options(option@, left);
        }
        let answers = if left {
            option.right_options()
        } else {
            option.left_options()
        };
        assert(forms(answers@) == opp(option@, left));
        let mut i: usize = 0;
        while i < answers.len()
            invariant
                i <= answers@.len(),
                forms(answers@) == opp(option@, left),
                option@.canonical(),
                option@.storable(),
                target@.storable(),
                !better(option@, target@, left),
                forms(out@) == start,
                start == forms(old(out)@),
                all_kept_ok(start, target@, left),
                forall|k: int| 0 <= k < i ==> !better(target@, #[trigger] opp(option@, left)[k], left),
            decreases answers@.len() - i,
        {
            let x = &answers[i];
            proof {
                lemma_side_options(option@, left);
                lemma_second_options(option@, left);
                assert(x@ == forms(answers@)[i as int]);
                assert(x@ == opp(option@, left)[i as int]);
            }
            let reversible = if left {
                target.geq(x)
            } else {
                x.geq(target)
            };
            if reversible {
                let seconds = if left {
                    x.left_options()
                } else {
                    x.right_options()
                };
                assert(forms(seconds@) == own(x@, left));
                let mut j: usize = 0;
                while j < seconds.len()
                    invariant
                        j <= seconds@.len(),
                        i < opp(option@, left).len(),
                        x@ == opp(option@, left)[i as int],
                        forms(seconds@) == own(x@, left),
                        option@.canonical(),
                        option@.storable(),
                        x@.storable(),
                        target@.storable(),
                        better(target@, x@, left),
                        extends(start, forms(out@)),
                        all_kept_ok(forms(out@), target@, left),
                        forall|m: int|
                            0 <= m < j ==> absorbed(
                                #[trigger] own(x@, left)[m],
                                target@,
                                forms(out@),
                                left,
                            ),
                    decreases seconds@.len() - j,
                {
                    let ghost before = forms(out@);
                    proof {
                        lemma_side_options(option@, left);
                        lemma_second_options(option@, left);
                        lemma_side_options(x@, left);
                        option@.lemma_canonical();
                        if left {
                            assert(option@.right()[i as int].canonical());
                        } else {
                            assert(option@.left()[i as int].canonical());
                        }
                        x@.lemma_canonical();
                        assert(seconds@[j as int]@ == forms(seconds@)[j as int]);
                        assert(seconds@[j as int]@ == own(x@, left)[j as int]);
                        if left {
                            assert(x@.left()[j as int].canonical());
                        } else {
                            assert(x@.right()[j as int].canonical());
                        }
                        lemma_after_reversal(target@, x@, j as int, left);
                    }
                    Self::resolve(&seconds[j], target, left, out);
                    proof {
                        let after = forms(out@);
                        lemma_kept_wf(after, target@, left);
                        lemma_extends_dominates(before, after, left);
                        assert forall|m: int| 0 <= m < j implies absorbed(
                            #[trigger] own(x@, left)[m],
                            target@,
                            after,
                            left,
                        ) by {
                            lemma_absorbed_monotone(own(x@, left)[m], target@, before, after, left);
                        }
                    }
                    j += 1;
                }
                proof {
                    lemma_absorbed_unfold(option@, target@, forms(out@), left);
                    assert(bypassed(option@, i as int, target@, forms(out@), left));
                    assert(!not_reversible(option@, target@, left));
                }
                return ;
            }
            i += 1;
        }
        out.push(option.duplicate());
        proof {
            let after = forms(out@);
            assert(after =~= start.push(option@));
            lemma_better_reflexive(option@, left);
            lemma_absorbed_unfold(option@, target@, after, left);
            assert(better(after[after.len() - 1], option@, left));
            assert(has_better(after, option@, left));
            assert forall|k: int| 0 <= k < after.len() implies kept_ok(
                #[trigger] after[k],
                target@,
                left,
            ) by {
                if k < start.len() {
                    assert(after[k] == start[k]);
                }
            }
        }
    }
}

/// The first `upto` of the options are made up for by `kept`.
pub open spec fn all_absorbed(options: Seq<Form>, upto: int, g: Form, kept: Seq<Form>, left: bool) -> bool {
    forall|j: int| 0 <= j < upto ==> absorbed(#[trigger] options[j], g, kept, left)
}

/// One more option is made up for, and so are those before it, after what
/// stands for it was appended.
proof fn lemma_bypass_step(
    options: Seq<Form>,
    i: int,
    g: Form,
    before: Seq<Form>,
    after: Seq<Form>,
    left: bool,
)
    requires
        g.wf(),
        0 <= i < options.len(),
        options == own(g, left),
        extends(before, after),
        all_kept_ok(after, g, left),
        all_absorbed(options, i, g, before, left),
        absorbed(options[i], g, after, left),
        not_reversible(options[i], g, left) ==> after == before.push(options[i]),
        no_reversible(g, left) ==> before == options.take(i),
    ensures
        all_absorbed(options, i + 1, g, after, left),
        no_reversible(g, left) ==> after == options.take(i + 1),
{
    lemma_side_options(g, left);
    lemma_kept_wf(after, g, left);
    lemma_extends_dominates(before, after, left);
    assert forall|j: int| 0 <= j < i + 1 implies absorbed(#[trigger] options[j], g, after, left) by {
        if j < i {
            lemma_absorbed_monotone(options[j], g, before, after, left);
        }
    }
    if no_reversible(g, left) {
        assert(not_reversible(own(g, left)[i], g, left));
        assert(after =~= options.take(i + 1));
    }
}

/// While the options that `o` makes needless are dropped from `kept`:
/// what is left, `now`, is part of `kept`, holds no dominated form and none
/// that is at least as good as `o`, and makes up, together with `o`, for all of `kept`.
pub open spec fn pruning(kept: Seq<Form>, now: Seq<Form>, o: Form, left: bool) -> bool {
    &&& all_wf(now)
    &&& subset_of(now, kept)
    &&& no_dominated(now, left)
    &&& !has_better(now, o, left)
    &&& forall|a: int|
        0 <= a < kept.len() ==> has_better(now, #[trigger] kept[a], left) || better(o, kept[a], left)
}

/// Before anything is dropped.
pub proof fn lemma_pruning_start(kept: Seq<Form>, o: Form, left: bool)
    requires
        all_wf(kept),
        no_dominated(kept, left),
        !has_better(kept, o, left),
    ensures
        pruning(kept, kept, o, left),
{
    assert forall|a: int| 0 <= a < kept.len() implies has_better(kept, #[trigger] kept[a], left) by {
        lemma_better_reflexive(kept[a], left);
        assert(better(kept[a], kept[a], left));
    }
    assert forall|i: int| 0 <= i < kept.len() implies kept.contains(#[trigger] kept[i]) by {}
}

/// Dropping a form that `o` is at least as good as.
pub proof fn lemma_pruning_remove(kept: Seq<Form>, now: Seq<Form>, k: int, o: Form, left: bool)
    requires
        all_wf(kept),
        o.wf(),
        pruning(kept, now, o, left),
        0 <= k < now.len(),
        better(o, now[k], left),
    ensures
        pruning(kept, now.remove(k), o, left),
{
    let next = now.remove(k);
    assert forall|a: int| 0 <= a < next.len() implies (#[trigger] next[a]).wf() && kept.contains(
        next[a],
    ) by {
        let from = if a < k {
            a
        } else {
            a + 1
        };
        assert(next[a] == now[from]);
    }
    assert forall|a: int, b: int|
        0 <= a < next.len() && 0 <= b < next.len() && a != b implies !better(
        #[trigger] next[a],
        #[trigger] next[b],
        left,
    ) by {
        let fa = if a < k {
            a
        } else {
            a + 1
        };
        let fb = if b < k {
            b
        } else {
            b + 1
        };
        assert(next[a] == now[fa] && next[b] == now[fb]);
    }
    if has_better(next, o, left) {
        let m = choose|m: int| 0 <= m < next.len() && better(#[trigger] next[m], o, left);
        let fm = if m < k {
            m
        } else {
            m + 1
        };
        assert(next[m] == now[fm]);
        assert(better(now[fm], o, left));
        assert(false);
    }
    assert forall|a: int| 0 <= a < kept.len() implies has_better(next, #[trigger] kept[a], left)
        || better(o, kept[a], left) by {
        if !better(o, kept[a], left) {
            assert(has_better(now, kept[a], left));
            let m = choose|m: int| 0 <= m < now.len() && better(#[trigger] now[m], kept[a], left);
            if m == k {
                lemma_better_transitive(o, now[m], kept[a], left);
            } else {
                let to = if m < k {
                    m
                } else {
                    m - 1
                };
                assert(next[to] == now[m]);
                assert(better(next[to], kept[a], left));
            }
        }
    }
}

/// After everything that `o = src[i]` makes needless was dropped, `o` is added.
pub proof fn lemma_pruning_push(src: Seq<Form>, i: int, kept: Seq<Form>, rest: Seq<Form>, left: bool)
    requires
        all_wf(src),
        0 <= i < src.len(),
        all_wf(kept),
        subset_of(kept, src),
        dominated_by(src.take(i), kept, left),
        pruning(kept, rest, src[i], left),
        forall|m: int| 0 <= m < rest.len() ==> !better(src[i], #[trigger] rest[m], left),
    ensures
        all_wf(rest.push(src[i])),
        subset_of(rest.push(src[i]), src),
        dominated_by(src.take(i + 1), rest.push(src[i]), left),
        no_dominated(rest.push(src[i]), left),
{
    let o = src[i];
    let next = rest.push(o);
    lemma_better_reflexive(o, left);
    assert forall|a: int| 0 <= a < next.len() implies (#[trigger] next[a]).wf() && src.contains(
        next[a],
    ) by {
        if a < rest.len() {
            assert(next[a] == rest[a]);
            assert(kept.contains(rest[a]));
            let b = choose|b: int| 0 <= b < kept.len() && kept[b] == rest[a];
            assert(src.contains(kept[b]));
        } else {
            assert(next[a] == src[i]);
        }
    }
    assert forall|a: int, b: int|
        0 <= a < next.len() && 0 <= b < next.len() && a != b implies !better(
        #[trigger] next[a],
        #[trigger] next[b],
        left,
    ) by {
        if a < rest.len() && b < rest.len() {
            assert(next[a] == rest[a] && next[b] == rest[b]);
        } else if a < rest.len() {
            assert(next[a] == rest[a]);
            if better(rest[a], o, left) {
                assert(has_better(rest, o, left));
            }
        } else {
            assert(next[b] == rest[b]);
        }
    }
    assert forall|a: int| 0 <= a < src.take(i + 1).len() implies has_better(
        next,
        #[trigger] src.take(i + 1)[a],
        left,
    ) by {
        let e = src.take(i + 1)[a];
        if a < i {
            assert(e == src.take(i)[a]);
            assert(has_better(kept, e, left));
            let m = choose|m: int| 0 <= m < kept.len() && better(#[trigger] kept[m], e, left);
            if better(o, kept[m], left) {
                lemma_better_transitive(o, kept[m], e, left);
                assert(better(next[next.len() - 1], e, left));
            } else {
                assert(has_better(rest, kept[m], left));
                let n = choose|n: int| 0 <= n < rest.len() && better(#[trigger] rest[n], kept[m], left);
                lemma_better_transitive(rest[n], kept[m], e, left);
                assert(next[n] == rest[n]);
                assert(better(next[n], e, left));
            }
        } else {
            assert(better(next[next.len() - 1], e, left));
        }
    }
}

/// An option that a kept one is at least as good as is left out.
pub proof fn lemma_dominated_skip(src: Seq<Form>, i: int, kept: Seq<Form>, left: bool)
    requires
        0 <= i < src.len(),
        dominated_by(src.take(i), kept, left),
        has_better(kept, src[i], left),
    ensures
        dominated_by(src.take(i + 1), kept, left),
{
    assert forall|a: int| 0 <= a < src.take(i + 1).len() implies has_better(
        kept,
        #[trigger] src.take(i + 1)[a],
        left,
    ) by {
        if a < i {
            assert(src.take(i + 1)[a] == src.take(i)[a]);
        }
    }
}

/// Placing `x` at `p` keeps the list in order and without repetition.
pub proof fn lemma_sort_insert(now: Seq<Form>, x: Form, p: int)
    requires
        sorted(now),
        distinct(now),
        !now.contains(x),
        0 <= p <= now.len(),
        forall|k: int| p <= k < now.len() ==> form_order(x, #[trigger] now[k]) is Less,
        p > 0 ==> form_order(now[p - 1], x) is Less,
    ensures
        sorted(now.insert(p, x)),
        distinct(now.insert(p, x)),
        forall|e: Form| #[trigger] now.insert(p, x).contains(e) <==> (now.contains(e) || e == x),
{
    let next = now.insert(p, x);
    assert forall|k: int| 0 <= k < next.len() - 1 implies #[trigger] in_order(next, k) by {
        if k + 1 < p {
            assert(next[k] == now[k] && next[k + 1] == now[k + 1]);
            assert(in_order(now, k));
        } else if k + 1 == p {
            assert(next[k] == now[k]);
        } else if k == p {
            assert(next[k + 1] == now[k]);
        } else {
            assert(next[k] == now[k - 1] && next[k + 1] == now[k]);
            assert(in_order(now, k - 1));
        }
    }
    assert forall|a: int, b: int|
        0 <= a < next.len() && 0 <= b < next.len() && a != b implies #[trigger] next[a]
        != #[trigger] next[b] by {
        let fa = if a < p {
            a
        } else {
            a - 1
        };
        let fb = if b < p {
            b
        } else {
            b - 1
        };
        if a != p && b != p {
            assert(next[a] == now[fa] && next[b] == now[fb]);
        } else if a == p {
            assert(next[b] == now[fb]);
            assert(now.contains(now[fb]));
        } else {
            assert(next[a] == now[fa]);
            assert(now.contains(now[fa]));
        }
    }
    assert forall|e: Form| #[trigger] next.contains(e) <==> (now.contains(e) || e == x) by {
        if next.contains(e) {
            let k = choose|k: int| 0 <= k < next.len() && next[k] == e;
            if k < p {
                assert(now[k] == e);
            } else if k > p {
                assert(now[k - 1] == e);
            }
        }
        if now.contains(e) {
            let k = choose|k: int| 0 <= k < now.len() && now[k] == e;
            if k < p {
                assert(next[k] == e);
            } else {
                assert(next[k + 1] == e);
            }
        }
        if e == x {
            assert(next[p] == e);
        }
    }
}

/// No form occurs twice.
pub open spec fn distinct(s: Seq<Form>) -> bool {
    forall|i: int, j: int| 0 <= i < s.len() && 0 <= j < s.len() && i != j ==> #[trigger] s[i] != #[trigger] s[j]
}

impl CanonicalForm {
    /// Whether `a` is at least as good for the player as `b`.
    fn as_good(a: &CanonicalForm, b: &CanonicalForm, left: bool) -> (r: bool)
        requires
            a@.storable(),
            b@.storable(),
        ensures
            r == better(a@, b@, left),
    {
        if left {
            a.geq(b)
        } else {
            b.geq(a)
        }
    }

    /// Bypasses the reversible options of the player among `options`,
    /// which are the player's options in `target`.
    fn bypass_reversible(options: &Vec<CanonicalForm>, target: &CanonicalForm, left: bool) -> (out:
        Vec<CanonicalForm>)
        requires
            target@.storable(),
            forms(options@) == own(target@, left),
            all_canonical(forms(options@)),
        ensures
            all_kept_ok(forms(out@), target@, left),
            all_absorbed(own(target@, left), own(target@, left).len() as int, target@, forms(out@), left),
            no_reversible(target@, left) ==> forms(out@) == forms(options@),
    {
        let mut out: Vec<CanonicalForm> = Vec::new();
        let mut i: usize = 0;
        assert(forms(out@) =~= forms(options@).take(0));
        while i < options.len()
            invariant
                i <= options@.len(),
                target@.storable(),
                forms(options@) == own(target@, left),
                all_canonical(forms(options@)),
                all_kept_ok(forms(out@), target@, left),
                all_absorbed(own(target@, left), i as int, target@, forms(out@), left),
                no_reversible(target@, left) ==> forms(out@) == forms(options@).take(i as int),
            decreases options@.len() - i,
        {
            let ghost before = forms(out@);
            proof {
                lemma_better_reflexive(target@, left);
                assert(options@[i as int]@ == forms(options@)[i as int]);
            }
            Self::resolve(&options[i], target, left, &mut out);
            proof {
                lemma_bypass_step(own(target@, left), i as int, target@, before, forms(out@), left);
            }
            i += 1;
        }
        assert(forms(options@).take(i as int) =~= forms(options@));
        out
    }

    /// Drops the options that another one makes needless: the result holds
    /// no form that another one of it is at least as good as, and for each
    /// form of `list` one that is at least as good.
    fn eliminate_dominated(list: &Vec<CanonicalForm>, left: bool) -> (out: Vec<CanonicalForm>)
        requires
            all_storable(forms(list@)),
        ensures
            subset_of(forms(out@), forms(list@)),
            dominated_by(forms(list@), forms(out@), left),
            no_dominated(forms(out@), left),
            no_dominated(forms(list@), left) ==> forms(out@) == forms(list@),
    {
        let ghost src = forms(list@);
        let mut out: Vec<CanonicalForm> = Vec::new();
        let mut i: usize = 0;
        assert(forms(out@) =~= src.take(0));
        while i < list.len()
            invariant
                i <= list@.len(),
                src == forms(list@),
                all_wf(src),
                all_storable(src),
                all_wf(forms(out@)),
                all_storable(forms(out@)),
                subset_of(forms(out@), src),
                dominated_by(src.take(i as int), forms(out@), left),
                no_dominated(forms(out@), left),
                no_dominated(src, left) ==> forms(out@) == src.take(i as int),
            decreases list@.len() - i,
        {
            let o = &list[i];
            let ghost kept = forms(out@);
            assert(o@ == src[i as int]);
            assert(src[i as int].storable());
            // is some kept option at least as good?
            let mut dominated = false;
            let mut k: usize = 0;
            while k < out.len() && !dominated
                invariant
                    k <= out@.len(),
                    kept == forms(out@),
                    all_wf(kept),
                    all_storable(kept),
                    o@.storable(),
                    dominated ==> has_better(kept, o@, left),
                    !dominated ==> forall|m: int| 0 <= m < k ==> !better(#[trigger] kept[m], o@, left),
                decreases out@.len() - k + (if dominated {
                        0int
                    } else {
                        1int
                    }),
            {
                assert(out@[k as int]@ == kept[k as int]);
                if Self::as_good(&out[k], o, left) {
                    dominated = true;
                } else {
                    k += 1;
                }
            }
            if !dominated {
                proof {
                    lemma_pruning_start(kept, o@, left);
                }
                // drop what the new option makes needless
                let mut k: usize = 0;
                while k < out.len()
                    invariant
                        k <= out@.len(),
                        o@.storable(),
                        all_wf(kept),
                        all_storable(forms(out@)),
                        pruning(kept, forms(out@), o@, left),
                        forall|m: int| 0 <= m < k ==> !better(o@, #[trigger] forms(out@)[m], left),
                        (forall|m: int| 0 <= m < kept.len() ==> !better(o@, #[trigger] kept[m], left))
                            ==> forms(out@) == kept,
                    decreases out@.len() - k,
                {
                    let ghost now = forms(out@);
                    assert(out@[k as int]@ == now[k as int]);
                    if Self::as_good(o, &out[k], left) {
                        out.remove(k);
                        proof {
                            assert(forms(out@) =~= now.remove(k as int));
                            assert forall|a: int| 0 <= a < forms(out@).len() implies (
                            #[trigger] forms(out@)[a]).storable() by {
                                let from = if a < k {
                                    a
                                } else {
                                    a + 1
                                };
                                assert(forms(out@)[a] == now[from]);
                            }
                            lemma_pruning_remove(kept, now, k as int, o@, left);
                            if now == kept {
                                assert(better(o@, kept[k as int], left));
                            }
                        }
                    } else {
                        k += 1;
                    }
                }
                let ghost rest = forms(out@);
                out.push(o.duplicate());
                proof {
                    assert(forms(out@) =~= rest.push(o@));
                    assert forall|a: int| 0 <= a < forms(out@).len() implies (
                    #[trigger] forms(out@)[a]).storable() by {
                        if a < rest.len() {
                            assert(forms(out@)[a] == rest[a]);
                        }
                    }
                    lemma_pruning_push(src, i as int, kept, rest, left);
                    if no_dominated(src, left) {
                        assert forall|m: int| 0 <= m < kept.len() implies !better(
                            o@,
                            #[trigger] kept[m],
                            left,
                        ) by {
                            assert(kept[m] == src[m]);
                            assert(!better(src[i as int], src[m], left));
                        }
                        assert(forms(out@) =~= src.take(i + 1));
                    }
                }
            } else {
                proof {
                    lemma_dominated_skip(src, i as int, kept, left);
                    if no_dominated(src, left) {
                        let m = choose|m: int|
                            0 <= m < kept.len() && better(#[trigger] kept[m], o@, left);
                        assert(kept[m] == src[m]);
                        assert(better(src[m], src[i as int], left));
                        assert(false);
                    }
                }
            }
            i += 1;
        }
        assert(src.take(i as int) =~= src);
        out
    }

    /// Lists the forms in order.
    fn sort(list: &Vec<CanonicalForm>) -> (out: Vec<CanonicalForm>)
        requires
            distinct(forms(list@)),
        ensures
            sorted(forms(out@)),
            distinct(forms(out@)),
            subset_of(forms(out@), forms(list@)),
            subset_of(forms(list@), forms(out@)),
            sorted(forms(list@)) ==> forms(out@) == forms(list@),
    {
        let ghost src = forms(list@);
        let mut out: Vec<CanonicalForm> = Vec::new();
        let mut i: usize = 0;
        assert(forms(out@) =~= src.take(0));
        while i < list.len()
            invariant
                i <= list@.len(),
                src == forms(list@),
                distinct(src),
                out@.len() == i,
                sorted(forms(out@)),
                distinct(forms(out@)),
                subset_of(forms(out@), src.take(i as int)),
                subset_of(src.take(i as int), forms(out@)),
                sorted(src) ==> forms(out@) == src.take(i as int),
            decreases list@.len() - i,
        {
            let x = &list[i];
            let ghost now = forms(out@);
            assert(x@ == src[i as int]);
            let mut p: usize = out.len();
            while p > 0 && matches!(x.compare(&out[p - 1]), Order::Less)
                invariant
                    p <= out@.len(),
                    now == forms(out@),
                    forall|k: int| p <= k < now.len() ==> form_order(x@, #[trigger] now[k]) is Less,
                decreases p,
            {
                assert(out@[p - 1]@ == now[p - 1]);
                p -= 1;
            }
            proof {
                if now.contains(x@) {
                    let k = choose|k: int| 0 <= k < now.len() && now[k] == x@;
                    assert(src.take(i as int).contains(now[k]));
                    let j = choose|j: int| 0 <= j < i && src.take(i as int)[j] == now[k];
                    assert(src[j] == src[i as int]);
                    assert(false);
                }
                if p > 0 {
                    assert(out@[p - 1]@ == now[p - 1]);
                    lemma_order_antisymmetric(x@, now[p - 1]);
                    lemma_order_equal(x@, now[p - 1]);
                    assert(now.contains(now[p - 1]));
                }
                if sorted(src) && i > 0 {
                    assert(now[i - 1] == src[i - 1]);
                    assert(in_order(src, i - 1));
                    lemma_order_antisymmetric(x@, now[i - 1]);
                    assert(p == i);
                }
                lemma_sort_insert(now, x@, p as int);
            }
            out.insert(p, x.duplicate());
            proof {
                let next = forms(out@);
                assert(next =~= now.insert(p as int, x@));
                assert forall|k: int| 0 <= k < next.len() implies src.take(i + 1).contains(
                    #[trigger] next[k],
                ) by {
                    assert(next.contains(next[k]));
                    if next[k] == x@ {
                        assert(src.take(i + 1)[i as int] == x@);
                    } else {
                        assert(now.contains(next[k]));
                        let m = choose|m: int| 0 <= m < now.len() && now[m] == next[k];
                        assert(src.take(i as int).contains(now[m]));
                        let j = choose|j: int| 0 <= j < i && src.take(i as int)[j] == now[m];
                        assert(src.take(i + 1)[j] == next[k]);
                    }
                }
                assert forall|j: int| 0 <= j < i + 1 implies next.contains(
                    #[trigger] src.take(i + 1)[j],
                ) by {
                    if j < i {
                        assert(src.take(i + 1)[j] == src.take(i as int)[j]);
                        assert(now.contains(src.take(i as int)[j]));
                    }
                }
                if sorted(src) {
                    assert(next =~= src.take(i + 1));
                }
            }
            i += 1;
        }
        assert(src.take(i as int) =~= src);
        out
    }
}

impl CanonicalForm {
    /// Whether the canonical forms are just the number-up-stars of `moves`.
    fn same_list(moves: &Vec<Nus>, list: &Vec<CanonicalForm>) -> (b: bool)
        ensures
            b == (nus_forms(moves@.map_values(|n: Nus| n@)) == forms(list@)),
    {
        let ghost models = nus_forms(moves@.map_values(|n: Nus| n@));
        if moves.len() != list.len() {
            assert(models.len() != forms(list@).len());
            return false;
        }
        let mut i: usize = 0;
        while i < moves.len()
            invariant
                i <= moves@.len(),
                moves@.len() == list@.len(),
                models == nus_forms(moves@.map_values(|n: Nus| n@)),
                forall|k: int| 0 <= k < i ==> models[k] == #[trigger] forms(list@)[k],
            decreases moves@.len() - i,
        {
            assert(models[i as int] == Form::Nus(moves@[i as int]@));
            assert(forms(list@)[i as int] == list@[i as int]@);
            match list[i].to_nus() {
                Some(nus) => {
                    if !nus.equals(&moves[i]) {
                        assert(models[i as int] != forms(list@)[i as int]);
                        return false;
                    }
                },
                None => {
                    assert(models[i as int] != forms(list@)[i as int]);
                    return false;
                },
            }
            i += 1;
        }
        assert(models =~= forms(list@));
        true
    }

    /// Whether the options are those of the number-up-star.
    fn expands_to(nus: &Nus, left: &Vec<CanonicalForm>, right: &Vec<CanonicalForm>) -> (b: bool)
        requires
            nus@.storable(),
        ensures
            b == expands(nus@, forms(left@), forms(right@)),
    {
        let l = nus.left_moves();
        let r = nus.right_moves();
        Self::same_list(&l, left) && Self::same_list(&r, right)
    }

    /// The first form as a number-up-star.
    fn first_nus(list: &Vec<CanonicalForm>) -> (r: Option<Nus>)
        requires
            list@.len() > 0,
        ensures
            match r {
                Some(nus) => forms(list@)[0] == Form::Nus(nus@),
                None => forms(list@)[0] is Moves,
            },
    {
        assert(forms(list@)[0] == list@[0]@);
        list[0].to_nus()
    }

    /// The only number-up-star that can have these options.
    fn candidate(left: &Vec<CanonicalForm>, right: &Vec<CanonicalForm>) -> (r: Option<Nus>)
        ensures
            r matches Some(c) ==> c@.storable(),
            forall|n: NumberUpStar| #[trigger]
                expands(n, forms(left@), forms(right@)) ==> (r matches Some(c) && c@ == n),
    {
        let ghost l = forms(left@);
        let ghost r = forms(right@);
        proof {
            assert forall|n: NumberUpStar| #[trigger] expands(n, l, r) implies read_off(n, l, r) by {
                lemma_read_off_forms(n, l, r);
            }
        }
        let nl = left.len();
        let nr = right.len();
        if nl == 0 && nr == 0 {
            return Some(Nus::new_integer(0));
        }
        if nl > u32::MAX as usize || nr > u32::MAX as usize {
            return None;
        }
        if nl == 0 {
            if nr != 1 {
                return None;
            }
            return match Self::first_nus(right) {
                Some(b) => {
                    if b.number().numerator() > -i64::MAX && b.number().is_integer() {
                        Some(Nus::new_integer(b.number().numerator() - 1))
                    } else {
                        None
                    }
                },
                None => None,
            };
        }
        if nr == 0 {
            if nl != 1 {
                return None;
            }
            return match Self::first_nus(left) {
                Some(a) => {
                    if a.number().numerator() < i64::MAX && a.number().is_integer() {
                        Some(Nus::new_integer(a.number().numerator() + 1))
                    } else {
                        None
                    }
                },
                None => None,
            };
        }
        let a = match Self::first_nus(left) {
            Some(a) => a,
            None => {
                return None;
            },
        };
        let b = match Self::first_nus(right) {
            Some(b) => b,
            None => {
                return None;
            },
        };
        if !a.number().wf_exec() || !b.number().wf_exec() || a.up_multiple() == i32::MIN
            || b.up_multiple() == i32::MIN {
            return None;
        }
        if nl == 1 && nr == 1 {
            if a.equals(&b) {
                Some(a.with(0, 1))
            } else if a.is_number() && b.is_number() {
                match a.number().checked_mean(&b.number()) {
                    Some(mean) => Some(Nus::new_number(mean)),
                    None => None,
                }
            } else if a.is_number() {
                if b.up_multiple() < i32::MAX {
                    Some(a.with(b.up_multiple() + 1, b.nimber().value() ^ 1))
                } else {
                    None
                }
            } else {
                if a.up_multiple() > -i32::MAX {
                    Some(b.with(a.up_multiple() - 1, a.nimber().value() ^ 1))
                } else {
                    None
                }
            }
        } else if nl == 2 && nr == 1 {
            Some(b.with(1, 1))
        } else if nl == 1 && nr == 2 {
            Some(a.with(-1, 1))
        } else if nl == nr {
            Some(a.with(0, nl as u32))
        } else {
            None
        }
    }

    /// The number-up-star with exactly these options, if there is one.
    fn detect(left: &Vec<CanonicalForm>, right: &Vec<CanonicalForm>) -> (r: Option<Nus>)
        ensures
            r matches Some(n) ==> expands(n@, forms(left@), forms(right@)),
            r is None ==> forall|n: NumberUpStar| !#[trigger] expands(n, forms(left@), forms(right@)),
            forall|n: NumberUpStar| #[trigger]
                expands(n, forms(left@), forms(right@)) ==> (r matches Some(c) && c@ == n),
    {
        match Self::candidate(left, right) {
            Some(c) => {
                if Self::expands_to(&c, left, right) {
                    Some(c)
                } else {
                    None
                }
            },
            None => None,
        }
    }
}

/// What `lemma_read_off` says of a number-up-star, over the forms of its options.
pub open spec fn read_off(n: NumberUpStar, l: Seq<Form>, r: Seq<Form>) -> bool {
    &&& n.storable()
    &&& l.len() == n.left().len()
    &&& r.len() == n.right().len()
    &&& (forall|i: int| 0 <= i < l.len() ==> #[trigger] l[i] == Form::Nus(n.left()[i]))
    &&& (forall|i: int| 0 <= i < r.len() ==> #[trigger] r[i] == Form::Nus(n.right()[i]))
    &&& (forall|i: int| 0 <= i < l.len() ==> (#[trigger] n.left()[i]).storable())
    &&& (forall|i: int| 0 <= i < r.len() ==> (#[trigger] n.right()[i]).storable())
    &&& ({
        let l = n.left();
        let r = n.right();
        &&& l.len() == 0 && r.len() == 0 ==> n == NumberUpStar::zero()
        &&& l.len() == 1 && r.len() == 0 ==> l[0].number.num >= 0 && n == NumberUpStar::integer(
            l[0].number.num + 1,
        )
        &&& l.len() == 0 && r.len() == 1 ==> r[0].number.num <= 0 && n == NumberUpStar::integer(
            r[0].number.num - 1,
        )
        &&& l.len() == 1 && r.len() == 1 && l[0] == r[0] ==> n == l[0].with(0, 1)
        &&& l.len() == 1 && r.len() == 1 && l[0] != r[0] && l[0].is_number() && r[0].is_number()
            ==> n == NumberUpStar::of_number(l[0].number.mean(r[0].number))
        &&& l.len() == 1 && r.len() == 1 && l[0] != r[0] && l[0].is_number() && !r[0].is_number()
            ==> r[0].ups >= 0 && n == l[0].with(r[0].ups + 1, r[0].star ^ 1)
        &&& l.len() == 1 && r.len() == 1 && l[0] != r[0] && !l[0].is_number() ==> l[0].ups <= 0
            && n == r[0].with(l[0].ups - 1, l[0].star ^ 1)
        &&& l.len() == 2 && r.len() == 1 ==> n == r[0].with(1, 1)
        &&& l.len() == 1 && r.len() == 2 ==> n == l[0].with(-1, 1)
        &&& l.len() >= 2 && r.len() >= 2 ==> l.len() == r.len() && n == l[0].with(
            0,
            l.len() as u32,
        )
        &&& l.len() >= 3 ==> r.len() >= 3
        &&& r.len() >= 3 ==> l.len() >= 3
    })
}

/// A number-up-star with the options `l` and `r` can be read off them.
pub proof fn lemma_read_off_forms(n: NumberUpStar, l: Seq<Form>, r: Seq<Form>)
    requires
        expands(n, l, r),
    ensures
        read_off(n, l, r),
{
    n.lemma_read_off();
    n.lemma_options();
    assert forall|i: int| 0 <= i < l.len() implies #[trigger] l[i] == Form::Nus(n.left()[i]) by {
        assert(nus_forms(n.left())[i] == Form::Nus(n.left()[i]));
    }
    assert forall|i: int| 0 <= i < r.len() implies #[trigger] r[i] == Form::Nus(n.right()[i]) by {
        assert(nus_forms(n.right())[i] == Form::Nus(n.right()[i]));
    }
}

/// One side of the game `g` after its reversible options were bypassed
/// (`s1`), the dominated ones dropped (`s2`) and the rest listed in order (`s3`).
pub open spec fn simplified_side(g: Form, s1: Seq<Form>, s2: Seq<Form>, s3: Seq<Form>, left: bool) -> bool {
    &&& all_kept_ok(s1, g, left)
    &&& all_absorbed(own(g, left), own(g, left).len() as int, g, s1, left)
    &&& subset_of(s2, s1)
    &&& dominated_by(s1, s2, left)
    &&& no_dominated(s2, left)
    &&& sorted(s3)
    &&& distinct(s3)
    &&& subset_of(s3, s2)
    &&& subset_of(s2, s3)
}

/// What is left of one side is made of kept options.
proof fn lemma_side_kept(g: Form, s1: Seq<Form>, s2: Seq<Form>, s3: Seq<Form>, left: bool)
    requires
        all_kept_ok(s1, g, left),
        subset_of(s2, s1),
        subset_of(s3, s2),
    ensures
        all_kept_ok(s2, g, left),
        all_kept_ok(s3, g, left),
{
    assert forall|k: int| 0 <= k < s2.len() implies kept_ok(#[trigger] s2[k], g, left) by {
        assert(s1.contains(s2[k]));
    }
    assert forall|k: int| 0 <= k < s3.len() implies kept_ok(#[trigger] s3[k], g, left) by {
        assert(s2.contains(s3[k]));
    }
}

/// What holds every form of `covered` dominates it.
pub proof fn lemma_subset_dominates(covered: Seq<Form>, kept: Seq<Form>, left: bool)
    requires
        all_wf(kept),
        subset_of(covered, kept),
    ensures
        dominated_by(covered, kept, left),
{
    assert forall|a: int| 0 <= a < covered.len() implies has_better(kept, #[trigger] covered[a], left) by {
        assert(kept.contains(covered[a]));
        let b = choose|b: int| 0 <= b < kept.len() && kept[b] == covered[a];
        lemma_better_reflexive(kept[b], left);
        assert(better(kept[b], covered[a], left));
    }
}

/// What is left of one side makes up for every option of the player in `g`.
proof fn lemma_side_absorbed(g: Form, s1: Seq<Form>, s2: Seq<Form>, s3: Seq<Form>, left: bool)
    requires
        g.wf(),
        all_wf(s1),
        all_wf(s2),
        all_wf(s3),
        all_absorbed(own(g, left), own(g, left).len() as int, g, s1, left),
        dominated_by(s1, s2, left),
        dominated_by(s2, s3, left),
    ensures
        all_absorbed(own(g, left), own(g, left).len() as int, g, s3, left),
{
    lemma_side_options(g, left);
    assert forall|j: int| 0 <= j < own(g, left).len() implies absorbed(
        #[trigger] own(g, left)[j],
        g,
        s3,
        left,
    ) by {
        lemma_absorbed_monotone(own(g, left)[j], g, s1, s2, left);
        lemma_absorbed_monotone(own(g, left)[j], g, s2, s3, left);
    }
}

/// Different forms out of a list without dominated options do not dominate each other.
proof fn lemma_side_no_dominated(s2: Seq<Form>, s3: Seq<Form>, left: bool)
    requires
        no_dominated(s2, left),
        distinct(s3),
        subset_of(s3, s2),
    ensures
        no_dominated(s3, left),
{
    assert forall|a: int, b: int|
        0 <= a < s3.len() && 0 <= b < s3.len() && a != b implies !better(
        #[trigger] s3[a],
        #[trigger] s3[b],
        left,
    ) by {
        assert(s2.contains(s3[a]));
        assert(s2.contains(s3[b]));
        let ja = choose|j: int| 0 <= j < s2.len() && s2[j] == s3[a];
        let jb = choose|j: int| 0 <= j < s2.len() && s2[j] == s3[b];
        assert(s3[a] != s3[b]);
        assert(!better(s2[ja], s2[jb], left));
    }
}

/// What is left of one side is made of kept options, makes up for every
/// option of the player in `g`, and holds no dominated option.
proof fn lemma_simplified_side(g: Form, s1: Seq<Form>, s2: Seq<Form>, s3: Seq<Form>, left: bool)
    requires
        g.wf(),
        simplified_side(g, s1, s2, s3, left),
    ensures
        all_kept_ok(s3, g, left),
        all_absorbed(own(g, left), own(g, left).len() as int, g, s3, left),
        no_dominated(s3, left),
{
    lemma_side_kept(g, s1, s2, s3, left);
    lemma_kept_wf(s1, g, left);
    lemma_kept_wf(s2, g, left);
    lemma_kept_wf(s3, g, left);
    lemma_subset_dominates(s2, s3, left);
    lemma_side_absorbed(g, s1, s2, s3, left);
    lemma_side_no_dominated(s2, s3, left);
}

/// Options that are kept in a game of the same value as `g` are not reversible in it.
proof fn lemma_kept_not_reversible(g: Form, g2: Form, left: bool)
    requires
        g.wf(),
        g2.wf(),
        equal_value(g, g2),
        all_kept_ok(own(g2, left), g, left),
    ensures
        no_reversible(g2, left),
{
    assert forall|j: int| 0 <= j < own(g2, left).len() implies not_reversible(
        #[trigger] own(g2, left)[j],
        g2,
        left,
    ) by {
        let o = own(g2, left)[j];
        lemma_side_options(o, left);
        assert forall|i: int| 0 <= i < opp(o, left).len() implies !better(
            g2,
            #[trigger] opp(o, left)[i],
            left,
        ) by {
            let x = opp(o, left)[i];
            if better(g2, x, left) {
                if left {
                    lemma_ge_transitive(g, g2, x);
                } else {
                    lemma_ge_transitive(x, g2, g);
                }
            }
        }
    }
}

/// Simplest form theorem for the game `g`: the game `Moves(l3, r3)` made of
/// what is left of both sides has the value of `g`, and it is canonical
/// unless it is a number-up-star written out.
pub proof fn lemma_simplified(
    g: Form,
    l1: Seq<Form>,
    l2: Seq<Form>,
    l3: Seq<Form>,
    r1: Seq<Form>,
    r2: Seq<Form>,
    r3: Seq<Form>,
)
    requires
        g.wf(),
        simplified_side(g, l1, l2, l3, true),
        simplified_side(g, r1, r2, r3, false),
    ensures
        Form::Moves(l3, r3).wf(),
        all_canonical(l3),
        all_canonical(r3),
        equal_value(g, Form::Moves(l3, r3)),
        (forall|n: NumberUpStar| !#[trigger] expands(n, l3, r3)) ==> Form::Moves(l3, r3).canonical(),
{
    let g2 = Form::Moves(l3, r3);
    lemma_simplified_side(g, l1, l2, l3, true);
    lemma_simplified_side(g, r1, r2, r3, false);
    assert(own(g2, true) == l3 && own(g2, false) == r3);
    assert(own(g, true) == g.left() && own(g, false) == g.right());
    assert forall|j: int| 0 <= j < g2.left().len() implies !ge(#[trigger] g2.left()[j], g) by {
        assert(kept_ok(l3[j], g, true));
    }
    assert forall|i: int| 0 <= i < g2.right().len() implies !ge(g, #[trigger] g2.right()[i]) by {
        assert(kept_ok(r3[i], g, false));
    }
    assert forall|j: int| 0 <= j < g.left().len() implies absorbed(
        #[trigger] g.left()[j],
        g,
        g2.left(),
        true,
    ) by {
        assert(absorbed(own(g, true)[j], g, l3, true));
    }
    assert forall|i: int| 0 <= i < g.right().len() implies absorbed(
        #[trigger] g.right()[i],
        g,
        g2.right(),
        false,
    ) by {
        assert(absorbed(own(g, false)[i], g, r3, false));
    }
    assert(g2.wf()) by {
        assert forall|i: int| 0 <= i < l3.len() implies (#[trigger] l3[i]).wf() by {
            assert(kept_ok(l3[i], g, true));
        }
        assert forall|i: int| 0 <= i < r3.len() implies (#[trigger] r3[i]).wf() by {
            assert(kept_ok(r3[i], g, false));
        }
    }
    lemma_simplified_equal(g, g2);
    assert forall|i: int| 0 <= i < l3.len() implies (#[trigger] l3[i]).canonical() by {
        assert(kept_ok(l3[i], g, true));
    }
    assert forall|i: int| 0 <= i < r3.len() implies (#[trigger] r3[i]).canonical() by {
        assert(kept_ok(r3[i], g, false));
    }
    lemma_kept_not_reversible(g, g2, true);
    lemma_kept_not_reversible(g, g2, false);
    if forall|n: NumberUpStar| !#[trigger] expands(n, l3, r3) {
        reveal(simplest);
        assert(simplest(l3, r3));
    }
}

/// A canonical game given by its options stays as it is when it is simplified.
proof fn lemma_canonical_stays(g: Form)
    requires
        g is Moves,
        g.canonical(),
    ensures
        no_reversible(g, true),
        no_reversible(g, false),
        no_dominated(g.left(), true),
        no_dominated(g.right(), false),
        sorted(g.left()),
        sorted(g.right()),
        forall|n: NumberUpStar| !#[trigger] expands(n, g.left(), g.right()),
{
    reveal(simplest);
}

/// Options of which none is at least as good as another one are all different.
pub proof fn lemma_no_dominated_distinct(s: Seq<Form>, left: bool)
    requires
        all_wf(s),
        no_dominated(s, left),
    ensures
        distinct(s),
{
    assert forall|i: int, j: int| 0 <= i < s.len() && 0 <= j < s.len() && i != j implies #[trigger] s[i]
        != #[trigger] s[j] by {
        lemma_better_reflexive(s[i], left);
    }
}

/// Forms that are part of well-formed ones are well-formed.
pub proof fn lemma_subset_wf(part: Seq<Form>, whole: Seq<Form>)
    requires
        all_wf(whole),
        subset_of(part, whole),
    ensures
        all_wf(part),
{
    assert forall|i: int| 0 <= i < part.len() implies (#[trigger] part[i]).wf() by {
        assert(whole.contains(part[i]));
    }
}

/// Canonical forms are well-formed.
pub proof fn lemma_all_canonical_wf(s: Seq<Form>)
    requires
        all_canonical(s),
    ensures
        all_wf(s),
        all_storable(s),
{
    assert forall|i: int| 0 <= i < s.len() implies (#[trigger] s[i]).storable() by {
        s[i].lemma_canonical();
    }
}

impl CanonicalForm {
    /// The canonical form of the game given by its options: the reversible
    /// options are bypassed, the dominated ones dropped, and both sides listed in order.
    fn simplify(target: &CanonicalForm) -> (cf: CanonicalForm)
        requires
            target@ is Moves,
            all_canonical(target@.left()),
            all_canonical(target@.right()),
        ensures
            cf@.canonical(),
            equal_value(cf@, target@),
            target@.canonical() ==> cf@ == target@,
    {
        proof {
            target.lemma_view();
            lemma_all_canonical_wf(target@.left());
            lemma_all_canonical_wf(target@.right());
        }
        match &target.shape {
            Shape::Nus(_) => target.duplicate(),
            Shape::Moves(moves) => {
                assert(target@.storable());
                let l1 = Self::bypass_reversible(&moves.left, target, true);
                let r1 = Self::bypass_reversible(&moves.right, target, false);
                proof {
                    lemma_kept_wf(forms(l1@), target@, true);
                    lemma_kept_wf(forms(r1@), target@, false);
                }
                let l2 = Self::eliminate_dominated(&l1, true);
                let r2 = Self::eliminate_dominated(&r1, false);
                proof {
                    lemma_subset_wf(forms(l2@), forms(l1@));
                    lemma_subset_wf(forms(r2@), forms(r1@));
                    lemma_no_dominated_distinct(forms(l2@), true);
                    lemma_no_dominated_distinct(forms(r2@), false);
                }
                let l3 = Self::sort(&l2);
                let r3 = Self::sort(&r2);
                proof {
                    lemma_simplified(
                        target@,
                        forms(l1@),
                        forms(l2@),
                        forms(l3@),
                        forms(r1@),
                        forms(r2@),
                        forms(r3@),
                    );
                    if target@.canonical() {
                        lemma_canonical_stays(target@);
                        assert(own(target@, true) == target@.left());
                        assert(own(target@, false) == target@.right());
                    }
                }
                match Self::detect(&l3, &r3) {
                    Some(nus) => {
                        proof {
                            let g2 = Form::Moves(forms(l3@), forms(r3@));
                            nus@.lemma_options();
                            lemma_same_options(Form::Nus(nus@), g2, target@);
                        }
                        Self::new_nus(nus)
                    },
                    None => {
                        let cf = CanonicalForm {
                            shape: Shape::Moves(Moves { left: l3, right: r3 }),
                        };
                        proof {
                            cf.lemma_view();
                        }
                        cf
                    },
                }
            },
        }
    }

    /// Construct the canonical form of the game with the given options.
    pub fn from_moves(moves: Moves) -> (cf: CanonicalForm)
        requires
            all_canonical(forms(moves.left@)),
            all_canonical(forms(moves.right@)),
        ensures
            cf@.canonical(),
            equal_value(cf@, moves@),
            cf@ == canonical_of(moves@),
            forall|n: NumberUpStar| #[trigger]
                expands(n, forms(moves.left@), forms(moves.right@)) ==> cf@ == Form::Nus(n),
            moves@.canonical() ==> cf@ == moves@,
    {
        let cf = Self::from_options(moves);
        proof {
            lemma_all_canonical_wf(forms(moves.left@));
            lemma_all_canonical_wf(forms(moves.right@));
            lemma_canonical_of(moves@, cf@);
        }
        cf
    }

    /// The canonical form of the game with the given options: a
    /// number-up-star if the options are those of one, else the simplest form.
    fn from_options(moves: Moves) -> (cf: CanonicalForm)
        requires
            all_canonical(forms(moves.left@)),
            all_canonical(forms(moves.right@)),
        ensures
            cf@.canonical(),
            equal_value(cf@, moves@),
            forall|n: NumberUpStar| #[trigger]
                expands(n, forms(moves.left@), forms(moves.right@)) ==> cf@ == Form::Nus(n),
            moves@.canonical() ==> cf@ == moves@,
    {
        proof {
            lemma_all_canonical_wf(forms(moves.left@));
            lemma_all_canonical_wf(forms(moves.right@));
            if moves@.canonical() {
                lemma_canonical_stays(moves@);
            }
        }
        match Self::detect(&moves.left, &moves.right) {
            Some(nus) => {
                proof {
                    nus@.lemma_options();
                    lemma_same_options(Form::Nus(nus@), moves@, moves@);
                }
                return Self::new_nus(nus);
            },
            None => {},
        }
        // numbers on both sides, all on the left below all on the right:
        // the simplest number between them
        match (Self::bound_of_numbers(&moves.left, true), Self::bound_of_numbers(&moves.right, false)) {
            (Some(lo), Some(hi)) => {
                if lo.lt(&hi) {
                    match DyadicRationalNumber::simplest_between(&lo, &hi) {
                        Some(simplest) => {
                            let cf = Self::new_rational(simplest);
                            proof {
                                lemma_simplicity(
                                    forms(moves.left@),
                                    forms(moves.right@),
                                    lo@,
                                    hi@,
                                    simplest@,
                                );
                                if moves@.canonical() {
                                    lemma_canonical_unique(cf@, moves@);
                                }
                            }
                            return cf;
                        },
                        None => {},
                    }
                }
            },
            _ => {},
        }
        let target = CanonicalForm { shape: Shape::Moves(moves) };
        proof {
            target.lemma_view();
        }
        Self::simplify(&target)
    }

    /// The largest of the forms, if `left`, else the smallest one. There is
    /// one if and only if there are forms and they are all numbers.
    fn bound_of_numbers(list: &Vec<CanonicalForm>, left: bool) -> (r: Option<DyadicRationalNumber>)
        requires
            all_storable(forms(list@)),
        ensures
            r is Some <==> list@.len() > 0 && all_numbers(forms(list@)),
            r matches Some(bound) ==> bound.wf() && numbers_bounded(forms(list@), bound@, left),
    {
        if list.len() == 0 {
            return None;
        }
        let ghost all = forms(list@);
        assert(all[0] == list@[0]@);
        let first = match list[0].to_nus() {
            Some(nus) => nus,
            None => {
                assert(!is_number(all[0]));
                return None;
            },
        };
        if !first.is_number() {
            assert(!is_number(all[0]));
            return None;
        }
        assert(all[0].storable());
        let mut bound = first.number();
        let mut i: usize = 1;
        proof {
            bound@.lemma_order_transitive(bound@, bound@);
            assert(all.take(1)[0] == number(bound@));
        }
        while i < list.len()
            invariant
                1 <= i <= list@.len(),
                all == forms(list@),
                all_storable(all),
                bound.wf(),
                numbers_bounded(all.take(i as int), bound@, left),
            decreases list@.len() - i,
        {
            let ghost before = bound@;
            let ghost seen = all.take(i as int);
            assert(all[i as int] == list@[i as int]@);
            assert(all[i as int].storable());
            let nus = match list[i].to_nus() {
                Some(nus) => nus,
                None => {
                    assert(!is_number(all[i as int]));
                    return None;
                },
            };
            if !nus.is_number() {
                assert(!is_number(all[i as int]));
                return None;
            }
            let x = nus.number();
            let replace = if left {
                bound.lt(&x)
            } else {
                x.lt(&bound)
            };
            if replace {
                bound = x;
            }
            proof {
                let now = all.take(i + 1);
                before.lemma_order_transitive(x@, x@);
                x@.lemma_order_transitive(before, before);
                x@.lemma_order_transitive(x@, x@);
                assert(now[i as int] == number(x@));
                let at = choose|k: int| 0 <= k < seen.len() && #[trigger] seen[k] == number(before);
                assert(now[at] == seen[at]);
                assert forall|k: int| 0 <= k < now.len() implies match #[trigger] now[k] {
                    Form::Nus(n) => n.wf() && n.is_number() && (if left {
                        n.number.le(bound@)
                    } else {
                        bound@.le(n.number)
                    }),
                    Form::Moves(_, _) => false,
                } by {
                    if k < i {
                        assert(now[k] == seen[k]);
                        let n = seen[k]->Nus_0;
                        n.number.lemma_order_transitive(before, x@);
                        x@.lemma_order_transitive(before, n.number);
                    }
                }
            }
            i += 1;
        }
        assert(all.take(i as int) =~= all);
        assert(all_numbers(all));
        Some(bound)
    }
}

/// The sum of `option` and `other`, in this order if `first`.
pub open spec fn sum_with(option: Form, other: Form, first: bool) -> Form {
    if first {
        form_sum(option, other)
    } else {
        form_sum(other, option)
    }
}

impl CanonicalForm {
    /// Appends to `out` the sum of each form of `options` with `other`:
    /// `option + other` if `first`, else `other + option`.
    fn sum_into(
        options: &Vec<CanonicalForm>,
        other: &CanonicalForm,
        first: bool,
        out: &mut Vec<CanonicalForm>,
        Ghost(bound): Ghost<nat>,
    )
        requires
            other@.canonical(),
            all_canonical(forms(options@)),
            forall|i: int|
                0 <= i < options@.len() ==> (#[trigger] forms(options@)[i]).rank() + other@.rank()
                    < bound,
        ensures
            extends(forms(old(out)@), forms(final(out)@)),
            final(out)@.len() == old(out)@.len() + options@.len(),
            forall|i: int|
                0 <= i < options@.len() ==> {
                    let r = #[trigger] forms(final(out)@)[old(out)@.len() + i];
                    &&& r.canonical()
                    &&& equal_value(r, sum_with(forms(options@)[i], other@, first))
                    &&& other@ == Form::zero() ==> r == forms(options@)[i]
                },
        decreases bound, 0nat,
    {
        let ghost start = forms(out@);
        let mut i: usize = 0;
        while i < options.len()
            invariant
                i <= options@.len(),
                other@.canonical(),
                all_canonical(forms(options@)),
                forall|i: int|
                    0 <= i < options@.len() ==> (#[trigger] forms(options@)[i]).rank()
                        + other@.rank() < bound,
                start == forms(old(out)@),
                extends(start, forms(out@)),
                out@.len() == start.len() + i,
                forall|k: int|
                    0 <= k < i ==> {
                        let r = #[trigger] forms(out@)[start.len() + k];
                        &&& r.canonical()
                        &&& equal_value(r, sum_with(forms(options@)[k], other@, first))
                        &&& other@ == Form::zero() ==> r == forms(options@)[k]
                    },
            decreases options@.len() - i,
        {
            let ghost before = forms(out@);
            assert(forms(options@)[i as int] == options@[i as int]@);
            assert(forms(options@)[i as int].canonical());
            let r = if first {
                Self::sum(&options[i], other)
            } else {
                Self::sum(other, &options[i])
            };
            out.push(r);
            proof {
                let after = forms(out@);
                assert(after =~= before.push(r@));
                assert forall|k: int| 0 <= k < i + 1 implies {
                    let r = #[trigger] after[start.len() + k];
                    &&& r.canonical()
                    &&& equal_value(r, sum_with(forms(options@)[k], other@, first))
                    &&& other@ == Form::zero() ==> r == forms(options@)[k]
                } by {
                    if k < i {
                        assert(after[start.len() + k] == before[start.len() + k]);
                    }
                }
            }
            i += 1;
        }
    }

    /// The disjunctive sum `g + h`.
    pub fn sum(g: &CanonicalForm, h: &CanonicalForm) -> (cf: CanonicalForm)
        requires
            g@.canonical(),
            h@.canonical(),
        ensures
            cf@.canonical(),
            equal_value(cf@, plain_sum(g@, h@)),
            equal_value(cf@, form_sum(g@, h@)),
            cf@ == sum_value(g@, h@),
            adds_by_parts(g@, h@) ==> cf@ == form_sum(g@, h@),
            h@ == Form::zero() ==> cf@ == g@,
            g@ == Form::zero() ==> cf@ == h@,
        decreases g@.rank() + h@.rank(), 2nat,
    {
        let cf = Self::add(g, h);
        proof {
            g@.lemma_canonical();
            h@.lemma_canonical();
            cf@.lemma_canonical();
            lemma_sum_options(g@, h@);
            lemma_canonical_of(form_sum(g@, h@), cf@);
            lemma_sum_is_plain(g@, h@);
            lemma_equal_value_transitive(cf@, form_sum(g@, h@), plain_sum(g@, h@));
        }
        cf
    }

    /// The disjunctive sum `g + h`: taken part by part where both are
    /// number-up-stars and the sum can be stored, else the canonical form of
    /// the game whose options are the sums with one option of either.
    fn add(g: &CanonicalForm, h: &CanonicalForm) -> (cf: CanonicalForm)
        requires
            g@.canonical(),
            h@.canonical(),
        ensures
            cf@.canonical(),
            equal_value(cf@, form_sum(g@, h@)),
            adds_by_parts(g@, h@) ==> cf@ == form_sum(g@, h@),
            h@ == Form::zero() ==> cf@ == g@,
            g@ == Form::zero() ==> cf@ == h@,
        decreases g@.rank() + h@.rank(), 1nat,
    {
        let ghost bound = g@.rank() + h@.rank();
        proof {
            g@.lemma_canonical();
            h@.lemma_canonical();
            g@.lemma_options();
            h@.lemma_options();
            lemma_sum_options(g@, h@);
            lemma_ge_reflexive(form_sum(g@, h@));
            if let Form::Nus(a) = g@ {
                a.lemma_add_zero();
            }
            if let Form::Nus(b) = h@ {
                b.lemma_add_zero();
            }
        }
        match (g.to_nus(), h.to_nus()) {
            (Some(a), Some(b)) => {
                match a.checked_add(&b) {
                    Some(nus) => {
                        return Self::new_nus(nus);
                    },
                    None => {},
                }
            },
            _ => {},
        }
        let gl = g.left_options();
        let gr = g.right_options();
        let hl = h.left_options();
        let hr = h.right_options();
        let mut left: Vec<CanonicalForm> = Vec::new();
        let mut right: Vec<CanonicalForm> = Vec::new();
        Self::sum_into(&gl, h, true, &mut left, Ghost(bound));
        let ghost left_first = forms(left@);
        Self::sum_into(&hl, g, false, &mut left, Ghost(bound));
        Self::sum_into(&gr, h, true, &mut right, Ghost(bound));
        let ghost right_first = forms(right@);
        Self::sum_into(&hr, g, false, &mut right, Ghost(bound));
        let moves = Moves { left, right };
        proof {
            let s = form_sum(g@, h@);
            let m = moves@;
            let l = forms(moves.left@);
            let r = forms(moves.right@);
            assert forall|i: int| 0 <= i < l.len() implies (#[trigger] l[i]).canonical()
                && equal_value(l[i], s.left()[i]) by {
                if i < gl@.len() {
                    assert(l[i] == left_first[0 + i]);
                } else {
                    assert(l[i] == l[gl@.len() + (i - gl@.len())]);
                    assert(s.left()[i] == s.left()[g@.left().len() + (i - gl@.len())]);
                }
            }
            assert forall|i: int| 0 <= i < r.len() implies (#[trigger] r[i]).canonical()
                && equal_value(r[i], s.right()[i]) by {
                if i < gr@.len() {
                    assert(r[i] == right_first[0 + i]);
                } else {
                    assert(r[i] == r[gr@.len() + (i - gr@.len())]);
                    assert(s.right()[i] == s.right()[g@.right().len() + (i - gr@.len())]);
                }
            }
            lemma_all_canonical_wf(l);
            lemma_all_canonical_wf(r);
            lemma_congruent(m, s);
            if h@ == Form::zero() {
                assert forall|i: int| 0 <= i < l.len() implies l[i] == g@.left()[i] by {
                    assert(l[i] == left_first[0 + i]);
                }
                assert forall|i: int| 0 <= i < r.len() implies r[i] == g@.right()[i] by {
                    assert(r[i] == right_first[0 + i]);
                }
                assert(l =~= g@.left());
                assert(r =~= g@.right());
                assert(m == g@);
            }
            if g@ == Form::zero() {
                assert forall|i: int| 0 <= i < l.len() implies l[i] == h@.left()[i] by {
                    assert(l[i] == l[0 + i]);
                }
                assert forall|i: int| 0 <= i < r.len() implies r[i] == h@.right()[i] by {
                    assert(r[i] == r[0 + i]);
                }
                assert(l =~= h@.left());
                assert(r =~= h@.right());
                assert(m == h@);
            }
        }
        let cf = Self::from_moves(moves);
        proof {
            cf@.lemma_canonical();
            lemma_equal_value_transitive(cf@, moves@, form_sum(g@, h@));
        }
        cf
    }

    /// The negative of each form.
    fn neg_each(options: &Vec<CanonicalForm>, Ghost(bound): Ghost<nat>) -> (out: Vec<CanonicalForm>)
        requires
            all_canonical(forms(options@)),
            forall|i: int| 0 <= i < options@.len() ==> (#[trigger] forms(options@)[i]).rank() < bound,
        ensures
            out@.len() == options@.len(),
            forall|i: int|
                0 <= i < options@.len() ==> (#[trigger] forms(out@)[i]).canonical() && equal_value(
                    forms(out@)[i],
                    forms(options@)[i].neg(),
                ),
        decreases bound, 0nat,
    {
        let mut out: Vec<CanonicalForm> = Vec::new();
        let mut i: usize = 0;
        while i < options.len()
            invariant
                i <= options@.len(),
                all_canonical(forms(options@)),
                forall|i: int|
                    0 <= i < options@.len() ==> (#[trigger] forms(options@)[i]).rank() < bound,
                out@.len() == i,
                forall|k: int|
                    0 <= k < i ==> (#[trigger] forms(out@)[k]).canonical() && equal_value(
                        forms(out@)[k],
                        forms(options@)[k].neg(),
                    ),
            decreases options@.len() - i,
        {
            let ghost before = forms(out@);
            assert(forms(options@)[i as int] == options@[i as int]@);
            assert(forms(options@)[i as int].canonical());
            let r = options[i].neg();
            out.push(r);
            proof {
                let after = forms(out@);
                assert(after =~= before.push(r@));
                assert forall|k: int| 0 <= k < i + 1 implies (#[trigger] after[k]).canonical()
                    && equal_value(after[k], forms(options@)[k].neg()) by {
                    if k < i {
                        assert(after[k] == before[k]);
                    }
                }
            }
            i += 1;
        }
        out
    }

    /// The negative `-g`: the game in which the players have changed roles.
    pub fn neg(&self) -> (cf: CanonicalForm)
        requires
            self@.canonical(),
        ensures
            cf@.canonical(),
            equal_value(cf@, self@.neg()),
            cf@ == neg_value(self@),
            self@ is Nus ==> cf@ == self@.neg(),
        decreases self@.rank(), 2nat,
    {
        let cf = self.negate();
        proof {
            self@.lemma_canonical();
            self@.lemma_neg_options();
            lemma_canonical_of(self@.neg(), cf@);
        }
        cf
    }

    /// The negative: of a number-up-star part by part, else the canonical
    /// form of the game whose options are the negatives of the other player's options.
    fn negate(&self) -> (cf: CanonicalForm)
        requires
            self@.canonical(),
        ensures
            cf@.canonical(),
            equal_value(cf@, self@.neg()),
            self@ is Nus ==> cf@ == self@.neg(),
        decreases self@.rank(), 1nat,
    {
        proof {
            self.lemma_view();
            self@.lemma_canonical();
            self@.lemma_options();
            self@.lemma_neg_options();
            lemma_ge_reflexive(self@.neg());
        }
        match &self.shape {
            Shape::Nus(nus) => Self::new_nus(nus.neg()),
            Shape::Moves(m) => {
                let left = Self::neg_each(&m.right, Ghost(self@.rank()));
                let right = Self::neg_each(&m.left, Ghost(self@.rank()));
                let moves = Moves { left, right };
                proof {
                    let l = forms(moves.left@);
                    let r = forms(moves.right@);
                    let n = self@.neg();
                    assert forall|i: int| 0 <= i < l.len() implies (#[trigger] l[i]).canonical()
                        && equal_value(l[i], n.left()[i]) by {
                        assert(n.left()[i] == forms(m.right@)[i].neg());
                    }
                    assert forall|i: int| 0 <= i < r.len() implies (#[trigger] r[i]).canonical()
                        && equal_value(r[i], n.right()[i]) by {
                        assert(n.right()[i] == forms(m.left@)[i].neg());
                    }
                    lemma_all_canonical_wf(l);
                    lemma_all_canonical_wf(r);
                    lemma_congruent(moves@, n);
                }
                let cf = Self::from_moves(moves);
                proof {
                    cf@.lemma_canonical();
                    lemma_equal_value_transitive(cf@, moves@, self@.neg());
                }
                cf
            },
        }
    }

    /// The difference `g - h`, which is `g + (-h)`.
    pub fn difference(g: &CanonicalForm, h: &CanonicalForm) -> (cf: CanonicalForm)
        requires
            g@.canonical(),
            h@.canonical(),
        ensures
            cf@.canonical(),
            cf@ == sum_value(g@, neg_value(h@)),
    {
        let negative = h.neg();
        Self::sum(g, &negative)
    }
}

impl Clone for CanonicalForm {
    fn clone(&self) -> (cf: Self)
        ensures
            cf@ == self@,
    {
        self.duplicate()
    }
}

impl Clone for Moves {
    fn clone(&self) -> (moves: Self)
        ensures
            moves@ == self@,
    {
        Moves {
            left: CanonicalForm::duplicate_all(&self.left),
            right: CanonicalForm::duplicate_all(&self.right),
        }
    }
}

} // verus!
