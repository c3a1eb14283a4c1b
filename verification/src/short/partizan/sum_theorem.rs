//! The sum of forms is the disjunctive sum of games.

use crate::short::partizan::game_form::equal_value;
use crate::short::partizan::game_form::Form;
use crate::short::partizan::game_sum::adds_by_parts;
use crate::short::partizan::game_sum::form_sum;
use crate::short::partizan::game_sum::lemma_congruent;
use crate::short::partizan::game_sum::lemma_sum_options;
use crate::short::partizan::nus_sum::lemma_parts_sum;
use crate::short::partizan::plain_sum::lemma_plain_options;
use crate::short::partizan::plain_sum::plain_sum;
use vstd::prelude::*;

verus! {

/// The sum of two forms, in which number-up-stars are added part by part,
/// has the value of their sum as games.
pub proof fn lemma_sum_is_plain(g: Form, h: Form)
    requires
        g.wf(),
        h.wf(),
    ensures
        form_sum(g, h).wf(),
        plain_sum(g, h).wf(),
        equal_value(form_sum(g, h), plain_sum(g, h)),
    decreases g.rank() + h.rank(),
{
    let s = form_sum(g, h);
    let p = plain_sum(g, h);
    g.lemma_options();
    h.lemma_options();
    lemma_sum_options(g, h);
    lemma_plain_options(g, h);
    if adds_by_parts(g, h) {
        match (g, h) {
            (Form::Nus(a), Form::Nus(b)) => {
                lemma_parts_sum(a, b);
            },
            _ => {},
        }
    } else {
        assert forall|i: int| 0 <= i < s.left().len() implies equal_value(
            #[trigger] s.left()[i],
            p.left()[i],
        ) by {
            if i < g.left().len() {
                lemma_sum_is_plain(g.left()[i], h);
            } else {
                let j = i - g.left().len();
                assert(s.left()[g.left().len() + j] == form_sum(g, h.left()[j]));
                assert(p.left()[g.left().len() + j] == plain_sum(g, h.left()[j]));
                lemma_sum_is_plain(g, h.left()[j]);
            }
        }
        assert forall|i: int| 0 <= i < s.right().len() implies equal_value(
            #[trigger] s.right()[i],
            p.right()[i],
        ) by {
            if i < g.right().len() {
                lemma_sum_is_plain(g.right()[i], h);
            } else {
                let j = i - g.right().len();
                assert(s.right()[g.right().len() + j] == form_sum(g, h.right()[j]));
                assert(p.right()[g.right().len() + j] == plain_sum(g, h.right()[j]));
                lemma_sum_is_plain(g, h.right()[j]);
            }
        }
        lemma_congruent(s, p);
    }
}

} // verus!
