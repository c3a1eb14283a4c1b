//! The simplest form theorem: canonical forms of the same value are the same form.

use crate::short::partizan::game_form::all_canonical;
use crate::short::partizan::game_form::better;
use crate::short::partizan::game_form::equal_value;
use crate::short::partizan::game_form::expands;
use crate::short::partizan::game_form::form_order;
use crate::short::partizan::game_form::ge;
use crate::short::partizan::game_form::in_order;
use crate::short::partizan::game_form::lemma_better_reflexive;
use crate::short::partizan::game_form::lemma_better_transitive;
use crate::short::partizan::game_form::lemma_better_unfold;
use crate::short::partizan::game_form::lemma_expansion_injective;
use crate::short::partizan::game_form::lemma_side_options;
use crate::short::partizan::game_form::lemma_sorted_same;
use crate::short::partizan::game_form::no_dominated;
use crate::short::partizan::game_form::no_reversible;
use crate::short::partizan::game_form::not_reversible;
use crate::short::partizan::game_form::nus_forms;
use crate::short::partizan::game_form::opp;
use crate::short::partizan::game_form::own;
use crate::short::partizan::game_form::simplest;
use crate::short::partizan::game_form::sorted;
use crate::short::partizan::game_form::Form;
use crate::short::partizan::game_form::NumberUpStar;
use crate::short::partizan::game_sum::lemma_neg_ge;
use crate::short::partizan::number_order::lemma_nus_left_not_reversible;
use crate::short::partizan::number_order::lemma_stars_differ;
use vstd::prelude::*;

verus! {

/// The options of the form are canonical and listed in order, and none
/// of them is dominated or reversible.
pub open spec fn simplest_options(f: Form) -> bool {
    &&& all_canonical(f.left())
    &&& all_canonical(f.right())
    &&& no_dominated(f.left(), true)
    &&& no_dominated(f.right(), false)
    &&& no_reversible(f, true)
    &&& no_reversible(f, false)
    &&& sorted(f.left())
    &&& sorted(f.right())
}

/// Where a number-up-star has several options on one side, they are the
/// number with different stars, listed by their stars.
proof fn lemma_nus_lists(n: NumberUpStar, a: int, b: int)
    requires
        n.wf(),
    ensures
        0 <= a < n.left().len() && 0 <= b < n.left().len() && a != b ==> n.left()[a] == n.with(
            0,
            a as u32,
        ) && n.left()[b] == n.with(0, b as u32),
        0 <= a < n.right().len() && 0 <= b < n.right().len() && a != b ==> n.right()[a] == n.with(
            0,
            a as u32,
        ) && n.right()[b] == n.with(0, b as u32),
{
}

/// The options of a number-up-star are as simple as those of a canonical form.
pub proof fn lemma_nus_simplest(n: NumberUpStar)
    requires
        n.storable(),
    ensures
        simplest_options(Form::Nus(n)),
{
    let f = Form::Nus(n);
    let l = f.left();
    let r = f.right();
    n.lemma_options();
    f.lemma_options();
    assert forall|a: int, b: int| 0 <= a < l.len() && 0 <= b < l.len() && a != b implies !better(
        #[trigger] l[a],
        #[trigger] l[b],
        true,
    ) by {
        lemma_nus_lists(n, a, b);
        assert(l[a] == Form::Nus(n.left()[a]) && l[b] == Form::Nus(n.left()[b]));
        lemma_stars_differ(n, a as u32, b as u32);
    }
    assert forall|a: int, b: int| 0 <= a < r.len() && 0 <= b < r.len() && a != b implies !better(
        #[trigger] r[a],
        #[trigger] r[b],
        false,
    ) by {
        lemma_nus_lists(n, a, b);
        assert(r[a] == Form::Nus(n.right()[a]) && r[b] == Form::Nus(n.right()[b]));
        lemma_stars_differ(n, b as u32, a as u32);
    }
    assert forall|i: int| 0 <= i < l.len() - 1 implies #[trigger] in_order(l, i) by {
        lemma_nus_lists(n, i, i + 1);
        assert(l[i] == Form::Nus(n.left()[i]) && l[i + 1] == Form::Nus(n.left()[i + 1]));
    }
    assert forall|i: int| 0 <= i < r.len() - 1 implies #[trigger] in_order(r, i) by {
        lemma_nus_lists(n, i, i + 1);
        assert(r[i] == Form::Nus(n.right()[i]) && r[i + 1] == Form::Nus(n.right()[i + 1]));
    }
    assert forall|j: int| 0 <= j < own(f, true).len() implies not_reversible(
        #[trigger] own(f, true)[j],
        f,
        true,
    ) by {
        let o = own(f, true)[j];
        assert(o == Form::Nus(n.left()[j]));
        assert forall|i: int| 0 <= i < opp(o, true).len() implies !better(
            f,
            #[trigger] opp(o, true)[i],
            true,
        ) by {
            assert(opp(o, true)[i] == Form::Nus(n.left()[j].right()[i]));
            lemma_nus_left_not_reversible(n, j, i);
        }
    }
    let m = n.neg();
    n.lemma_neg_options();
    m.lemma_options();
    assert forall|j: int| 0 <= j < own(f, false).len() implies not_reversible(
        #[trigger] own(f, false)[j],
        f,
        false,
    ) by {
        let o = n.right()[j];
        assert(own(f, false)[j] == Form::Nus(o));
        o.lemma_neg_options();
        o.lemma_options();
        assert(m.left()[j] == o.neg());
        assert forall|i: int| 0 <= i < opp(Form::Nus(o), false).len() implies !better(
            f,
            #[trigger] opp(Form::Nus(o), false)[i],
            false,
        ) by {
            let x = o.left()[i];
            assert(opp(Form::Nus(o), false)[i] == Form::Nus(x));
            assert(o.neg().right()[i] == x.neg());
            lemma_nus_left_not_reversible(m, j, i);
            lemma_neg_ge(f, Form::Nus(x));
        }
    }
}

/// The options of a canonical form are canonical and listed in order, and
/// none of them is dominated or reversible.
pub proof fn lemma_canonical_simplest(f: Form)
    requires
        f.canonical(),
    ensures
        f.wf(),
        simplest_options(f),
{
    f.lemma_canonical();
    match f {
        Form::Nus(n) => {
            lemma_nus_simplest(n);
        },
        Form::Moves(l, r) => {
            reveal(simplest);
        },
    }
}

/// Every option of the player in `g` is an option of the player in `h`,
/// if both are canonical and have the same value.
proof fn lemma_options_occur(g: Form, h: Form, left: bool, i: int)
    requires
        g.canonical(),
        h.canonical(),
        equal_value(g, h),
        0 <= i < own(g, left).len(),
        forall|a: Form, b: Form|
            a.canonical() && b.canonical() && equal_value(a, b) && a.rank() + b.rank() < g.rank()
                + h.rank() ==> a == b,
    ensures
        own(h, left).contains(own(g, left)[i]),
{
    lemma_canonical_simplest(g);
    lemma_canonical_simplest(h);
    lemma_side_options(g, left);
    lemma_side_options(h, left);
    let o = own(g, left)[i];
    assert(o.canonical()) by {
        if left {
            assert(g.left()[i].canonical());
        } else {
            assert(g.right()[i].canonical());
        }
    }
    assert(better(h, g, left) && better(g, h, left));
    lemma_better_unfold(h, g, left);
    assert(!better(o, h, left));
    lemma_better_unfold(o, h, left);
    lemma_side_options(o, left);
    if exists|k: int| 0 <= k < opp(o, left).len() && better(h, #[trigger] opp(o, left)[k], left) {
        let k = choose|k: int|
            0 <= k < opp(o, left).len() && better(h, #[trigger] opp(o, left)[k], left);
        lemma_better_transitive(g, h, opp(o, left)[k], left);
        assert(not_reversible(own(g, left)[i], g, left));
        assert(false);
    }
    let j = choose|j: int| 0 <= j < own(h, left).len() && better(#[trigger] own(h, left)[j], o, left);
    let p = own(h, left)[j];
    assert(p.canonical()) by {
        if left {
            assert(h.left()[j].canonical());
        } else {
            assert(h.right()[j].canonical());
        }
    }
    // the same argument from `h` back to `g`
    lemma_better_unfold(g, h, left);
    assert(!better(p, g, left));
    lemma_better_unfold(p, g, left);
    lemma_side_options(p, left);
    if exists|k: int| 0 <= k < opp(p, left).len() && better(g, #[trigger] opp(p, left)[k], left) {
        let k = choose|k: int|
            0 <= k < opp(p, left).len() && better(g, #[trigger] opp(p, left)[k], left);
        lemma_better_transitive(h, g, opp(p, left)[k], left);
        assert(not_reversible(own(h, left)[j], h, left));
        assert(false);
    }
    let i2 = choose|i2: int|
        0 <= i2 < own(g, left).len() && better(#[trigger] own(g, left)[i2], p, left);
    lemma_better_transitive(own(g, left)[i2], p, o, left);
    if i2 != i {
        if left {
            assert(!better(g.left()[i2], g.left()[i], true));
        } else {
            assert(!better(g.right()[i2], g.right()[i], false));
        }
        assert(false);
    }
    assert(equal_value(o, p));
    assert(o == p);
}

/// Canonical uniqueness: two canonical forms of the same value are the same form.
pub proof fn lemma_canonical_unique(g: Form, h: Form)
    requires
        g.canonical(),
        h.canonical(),
        equal_value(g, h),
    ensures
        g == h,
    decreases g.rank() + h.rank(),
{
    lemma_canonical_simplest(g);
    lemma_canonical_simplest(h);
    assert forall|a: Form, b: Form|
        a.canonical() && b.canonical() && equal_value(a, b) && a.rank() + b.rank() < g.rank()
            + h.rank() implies a == b by {
        lemma_canonical_unique(a, b);
    }
    assert forall|i: int| 0 <= i < g.left().len() implies h.left().contains(#[trigger] g.left()[i]) by {
        lemma_options_occur(g, h, true, i);
    }
    assert forall|i: int| 0 <= i < h.left().len() implies g.left().contains(#[trigger] h.left()[i]) by {
        lemma_options_occur(h, g, true, i);
    }
    assert forall|i: int| 0 <= i < g.right().len() implies h.right().contains(
        #[trigger] g.right()[i],
    ) by {
        lemma_options_occur(g, h, false, i);
    }
    assert forall|i: int| 0 <= i < h.right().len() implies g.right().contains(
        #[trigger] h.right()[i],
    ) by {
        lemma_options_occur(h, g, false, i);
    }
    lemma_sorted_same(g.left(), h.left());
    lemma_sorted_same(g.right(), h.right());
    match (g, h) {
        (Form::Nus(n), Form::Nus(m)) => {
            lemma_expansion_injective(n, m);
        },
        (Form::Nus(n), Form::Moves(l, r)) => {
            reveal(simplest);
            assert(expands(n, l, r));
        },
        (Form::Moves(l, r), Form::Nus(m)) => {
            reveal(simplest);
            assert(expands(m, l, r));
        },
        (Form::Moves(_, _), Form::Moves(_, _)) => {},
    }
}

/// The canonical form of the value of `f`.
pub open spec fn canonical_of(f: Form) -> Form {
    choose|c: Form| c.canonical() && equal_value(c, f)
}

/// A canonical form with the value of `f` is the canonical form of `f`.
pub proof fn lemma_canonical_of(f: Form, c: Form)
    requires
        f.wf(),
        c.canonical(),
        equal_value(c, f),
    ensures
        canonical_of(f) == c,
{
    let d = canonical_of(f);
    assert(d.canonical() && equal_value(d, f));
    d.lemma_canonical();
    c.lemma_canonical();
    crate::short::partizan::game_form::lemma_ge_transitive(d, f, c);
    crate::short::partizan::game_form::lemma_ge_transitive(c, f, d);
    lemma_canonical_unique(d, c);
}

/// The canonical form of the sum of two forms.
pub open spec fn sum_value(g: Form, h: Form) -> Form {
    canonical_of(crate::short::partizan::game_sum::form_sum(g, h))
}

/// The canonical form of the negative of a form.
pub open spec fn neg_value(g: Form) -> Form {
    canonical_of(g.neg())
}

/// The sum of the forms, added up from the left, starting with zero.
pub open spec fn sum_of(values: Seq<Form>) -> Form
    decreases values.len(),
{
    if values.len() == 0 {
        Form::zero()
    } else {
        sum_value(sum_of(values.drop_last()), values.last())
    }
}

} // verus!
