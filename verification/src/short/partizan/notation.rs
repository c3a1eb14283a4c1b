//! Game values in the notation of combinatorial game theory.

use crate::numeric::decimal::append_decimal;
use crate::numeric::decimal::decimal;
use crate::numeric::dyadic_rational_number::number_text;
use crate::short::partizan::canonical_form::forms;
use crate::short::partizan::canonical_form::CanonicalForm;
use crate::short::partizan::canonical_form::Nus;
use crate::short::partizan::game_form::Form;
use crate::short::partizan::game_form::NumberUpStar;
use vstd::prelude::*;
use vstd::string::StringExecFns;

verus! {

/// A multiple of up: `↑`, `↑2`, ..., or of down: `↓`, `↓2`, ...
pub open spec fn ups_text(ups: int) -> Seq<char> {
    if ups == 0 {
        Seq::empty()
    } else if ups == 1 {
        "↑"@
    } else if ups > 1 {
        "↑"@ + decimal(ups as nat)
    } else if ups == -1 {
        "↓"@
    } else {
        "↓"@ + decimal((-ups) as nat)
    }
}

/// A nimber: `*`, `*2`, ...
pub open spec fn star_text(star: u32) -> Seq<char> {
    if star == 0 {
        Seq::empty()
    } else if star == 1 {
        "*"@
    } else {
        "*"@ + decimal(star as nat)
    }
}

/// A number-up-star: its number, unless that is zero and something
/// follows, then its ups and its star, as `0`, `1/2`, `*2`, `↑*`, `1*`.
pub open spec fn nus_text(n: NumberUpStar) -> Seq<char> {
    (if n.number.num != 0 || n.is_number() {
        number_text(n.number)
    } else {
        Seq::empty()
    }) + ups_text(n.ups) + star_text(n.star)
}

/// The forms from the `k`-th on, with a comma between them.
pub open spec fn list_text(s: Seq<Form>, k: nat) -> Seq<char>
    decreases s, s.len() - k,
{
    if k >= s.len() {
        Seq::empty()
    } else {
        (if k != 0 {
            ", "@
        } else {
            Seq::empty()
        }) + form_text(s[k as int]) + list_text(s, k + 1)
    }
}

/// A game value: a number-up-star, or the Left and the Right options in
/// braces, as `{1 | -1}`.
pub open spec fn form_text(f: Form) -> Seq<char>
    decreases f, 0nat,
{
    match f {
        Form::Nus(n) => nus_text(n),
        Form::Moves(l, r) => "{"@ + list_text(l, 0) + " | "@ + list_text(r, 0) + "}"@,
    }
}

/// Appends a multiple of up or down.
fn write_ups(ups: i32, buf: &mut String)
    requires
        ups > i32::MIN,
    ensures
        final(buf)@ == old(buf)@ + ups_text(ups as int),
{
    let ghost start = buf@;
    if ups == 1 {
        buf.append("↑");
    } else if ups > 1 {
        buf.append("↑");
        append_decimal(buf, ups as u64);
    } else if ups == -1 {
        buf.append("↓");
    } else if ups < -1 {
        buf.append("↓");
        append_decimal(buf, (-ups) as u64);
    }
    assert(buf@ =~= start + ups_text(ups as int));
}

/// Appends a nimber.
fn write_star(star: u32, buf: &mut String)
    ensures
        final(buf)@ == old(buf)@ + star_text(star),
{
    let ghost start = buf@;
    if star == 1 {
        buf.append("*");
    } else if star > 1 {
        buf.append("*");
        append_decimal(buf, star as u64);
    }
    assert(buf@ =~= start + star_text(star));
}

impl Nus {
    /// Appends the number-up-star in the notation of game values.
    fn write_to(&self, buf: &mut String)
        requires
            self@.storable(),
        ensures
            final(buf)@ == old(buf)@ + nus_text(self@),
    {
        let ghost start = buf@;
        let number = self.number();
        if number.numerator() != 0 || self.is_number() {
            number.write_to(buf);
        }
        write_ups(self.up_multiple(), buf);
        write_star(self.nimber().value(), buf);
        assert(buf@ =~= start + nus_text(self@));
    }
}

impl CanonicalForm {
    /// Appends the forms, with a comma between them.
    fn write_list(list: &Vec<CanonicalForm>, buf: &mut String)
        requires
            forall|i: int| 0 <= i < list@.len() ==> (#[trigger] forms(list@)[i]).storable(),
        ensures
            final(buf)@ == old(buf)@ + list_text(forms(list@), 0),
        decreases forms(list@), 1nat,
    {
        let ghost start = buf@;
        let ghost models = forms(list@);
        let mut k: usize = 0;
        while k < list.len()
            invariant
                k <= list@.len(),
                models == forms(list@),
                forall|i: int| 0 <= i < list@.len() ==> (#[trigger] forms(list@)[i]).storable(),
                buf@ + list_text(models, k as nat) == start + list_text(models, 0),
            decreases list@.len() - k,
        {
            let ghost now = buf@;
            if k != 0 {
                buf.append(", ");
            }
            assert(models[k as int] == list@[k as int]@);
            assert(models[k as int].wf());
            list[k].write_to(buf);
            proof {
                assert(buf@ + list_text(models, (k + 1) as nat) =~= now + list_text(
                    models,
                    k as nat,
                ));
            }
            k += 1;
        }
        proof {
            assert(list_text(models, k as nat) =~= Seq::<char>::empty());
            assert(buf@ =~= start + list_text(models, 0));
        }
    }

    /// Appends the form in the notation of game values.
    fn write_to(&self, buf: &mut String)
        requires
            self@.storable(),
        ensures
            final(buf)@ == old(buf)@ + form_text(self@),
        decreases self@, 0nat,
    {
        let ghost start = buf@;
        match self.to_nus() {
            Some(nus) => {
                nus.write_to(buf);
            },
            None => {
                let left = self.left_options();
                let right = self.right_options();
                buf.append("{");
                Self::write_list(&left, buf);
                buf.append(" | ");
                Self::write_list(&right, buf);
                buf.append("}");
                proof {
                    assert(buf@ =~= start + form_text(self@));
                }
            },
        }
    }

    /// The form in the notation of game values: `0`, `1/2`, `*2`, `↑*`, `{1 | -1}`.
    pub fn to_string(&self) -> (text: String)
        requires
            self@.storable(),
        ensures
            text@ == form_text(self@),
    {
        let mut text = String::new();
        self.write_to(&mut text);
        assert(Seq::<char>::empty() + form_text(self@) =~= form_text(self@));
        text
    }
}

} // verus!
