//! The disjunctive sum of games by their options alone, and its laws.

use crate::short::partizan::game_form::equal_value;
use crate::short::partizan::game_form::ge;
use crate::short::partizan::game_form::lemma_ge_reflexive;
use crate::short::partizan::game_form::lemma_ge_transitive;
use crate::short::partizan::game_form::Form;
use crate::short::partizan::game_sum::lemma_congruent;
use crate::short::partizan::game_sum::lemma_equal_value_transitive;
use vstd::prelude::*;

verus! {

/// The disjunctive sum of two games: a move in the sum is a move in one
/// of them, so the options are the sums `g' + h` for each option `g'` of
/// `g`, followed by the sums `g + h'` for each option `h'` of `h`.
pub open spec fn plain_sum(g: Form, h: Form) -> Form
    decreases g.rank() + h.rank(),
    when g.wf() && h.wf()
    via plain_sum_decreases
{
    Form::Moves(
        Seq::new(
            g.left().len() + h.left().len(),
            |i: int|
                if 0 <= i < g.left().len() {
                    plain_sum(g.left()[i], h)
                } else if g.left().len() <= i < g.left().len() + h.left().len() {
                    plain_sum(g, h.left()[i - g.left().len()])
                } else {
                    Form::zero()
                },
        ),
        Seq::new(
            g.right().len() + h.right().len(),
            |i: int|
                if 0 <= i < g.right().len() {
                    plain_sum(g.right()[i], h)
                } else if g.right().len() <= i < g.right().len() + h.right().len() {
                    plain_sum(g, h.right()[i - g.right().len()])
                } else {
                    Form::zero()
                },
        ),
    )
}

#[via_fn]
proof fn plain_sum_decreases(g: Form, h: Form) {
    g.lemma_options();
    h.lemma_options();
}

/// The options of a sum.
pub proof fn lemma_plain_options(g: Form, h: Form)
    requires
        g.wf(),
        h.wf(),
    ensures
        plain_sum(g, h).wf(),
        ({
            let s = plain_sum(g, h);
            &&& s.left().len() == g.left().len() + h.left().len()
            &&& s.right().len() == g.right().len() + h.right().len()
            &&& (forall|i: int|
                0 <= i < g.left().len() ==> #[trigger] s.left()[i] == plain_sum(g.left()[i], h))
            &&& (forall|i: int|
                0 <= i < h.left().len() ==> #[trigger] s.left()[g.left().len() + i] == plain_sum(
                    g,
                    h.left()[i],
                ))
            &&& (forall|i: int|
                0 <= i < g.right().len() ==> #[trigger] s.right()[i] == plain_sum(g.right()[i], h))
            &&& (forall|i: int|
                0 <= i < h.right().len() ==> #[trigger] s.right()[g.right().len() + i]
                    == plain_sum(g, h.right()[i]))
        }),
    decreases g.rank() + h.rank(),
{
    g.lemma_options();
    h.lemma_options();
    let s = plain_sum(g, h);
    assert forall|i: int| 0 <= i < s.left().len() implies (#[trigger] s.left()[i]).wf() by {
        if i < g.left().len() {
            lemma_plain_options(g.left()[i], h);
        } else {
            lemma_plain_options(g, h.left()[i - g.left().len()]);
        }
    }
    assert forall|i: int| 0 <= i < s.right().len() implies (#[trigger] s.right()[i]).wf() by {
        if i < g.right().len() {
            lemma_plain_options(g.right()[i], h);
        } else {
            lemma_plain_options(g, h.right()[i - g.right().len()]);
        }
    }
}

/// Adding the same game on the right keeps the order, and can be cancelled.
pub proof fn lemma_plain_monotone(a: Form, b: Form, k: Form)
    requires
        a.wf(),
        b.wf(),
        k.wf(),
    ensures
        ge(a, b) == ge(plain_sum(a, k), plain_sum(b, k)),
    decreases a.rank() + b.rank() + k.rank(),
{
    let ak = plain_sum(a, k);
    let bk = plain_sum(b, k);
    a.lemma_options();
    b.lemma_options();
    k.lemma_options();
    lemma_plain_options(a, k);
    lemma_plain_options(b, k);
    ak.lemma_options();
    bk.lemma_options();
    if ge(a, b) {
        assert forall|i: int| 0 <= i < ak.right().len() implies !ge(bk, #[trigger] ak.right()[i]) by {
            if i < a.right().len() {
                // a Right option of `a`
                lemma_plain_monotone(b, a.right()[i], k);
                assert(!ge(b, a.right()[i]));
            } else {
                // a Right option of `k`
                let j = i - a.right().len();
                let kr = k.right()[j];
                assert(ak.right()[a.right().len() + j] == plain_sum(a, kr));
                lemma_plain_monotone(a, b, kr);
                assert(bk.right()[b.right().len() + j] == plain_sum(b, kr));
                if ge(bk, plain_sum(a, kr)) {
                    assert(!ge(plain_sum(a, kr), bk.right()[b.right().len() + j]));
                }
            }
        }
        assert forall|i: int| 0 <= i < bk.left().len() implies !ge(#[trigger] bk.left()[i], ak) by {
            if i < b.left().len() {
                lemma_plain_monotone(b.left()[i], a, k);
                assert(!ge(b.left()[i], a));
            } else {
                let j = i - b.left().len();
                let kl = k.left()[j];
                assert(bk.left()[b.left().len() + j] == plain_sum(b, kl));
                lemma_plain_monotone(a, b, kl);
                assert(ak.left()[a.left().len() + j] == plain_sum(a, kl));
                if ge(plain_sum(b, kl), ak) {
                    assert(!ge(ak.left()[a.left().len() + j], plain_sum(b, kl)));
                }
            }
        }
    }
    if ge(ak, bk) {
        assert forall|i: int| 0 <= i < a.right().len() implies !ge(b, #[trigger] a.right()[i]) by {
            lemma_plain_monotone(b, a.right()[i], k);
            assert(!ge(bk, ak.right()[i]));
        }
        assert forall|j: int| 0 <= j < b.left().len() implies !ge(#[trigger] b.left()[j], a) by {
            lemma_plain_monotone(b.left()[j], a, k);
            assert(!ge(bk.left()[j], ak));
        }
    }
}

/// The sum does not depend on the order of the games, in value.
pub proof fn lemma_plain_commutes(g: Form, h: Form)
    requires
        g.wf(),
        h.wf(),
    ensures
        plain_sum(g, h).wf(),
        plain_sum(h, g).wf(),
        ge(plain_sum(g, h), plain_sum(h, g)),
    decreases g.rank() + h.rank(),
{
    let s = plain_sum(g, h);
    let t = plain_sum(h, g);
    g.lemma_options();
    h.lemma_options();
    lemma_plain_options(g, h);
    lemma_plain_options(h, g);
    s.lemma_options();
    t.lemma_options();
    lemma_ge_reflexive(s);
    lemma_ge_reflexive(t);
    // each Right option of `g + h` is a Right option of `h + g`, up to the order in it
    assert forall|i: int| 0 <= i < s.right().len() implies !ge(t, #[trigger] s.right()[i]) by {
        if i < g.right().len() {
            let x = g.right()[i];
            lemma_plain_commutes(x, h);
            assert(t.right()[h.right().len() + i] == plain_sum(h, x));
            if ge(t, s.right()[i]) {
                lemma_ge_transitive(t, plain_sum(x, h), plain_sum(h, x));
            }
        } else {
            let j = i - g.right().len();
            let y = h.right()[j];
            assert(s.right()[g.right().len() + j] == plain_sum(g, y));
            lemma_plain_commutes(g, y);
            assert(t.right()[j] == plain_sum(y, g));
            if ge(t, plain_sum(g, y)) {
                lemma_ge_transitive(t, plain_sum(g, y), plain_sum(y, g));
            }
        }
    }
    assert forall|i: int| 0 <= i < t.left().len() implies !ge(#[trigger] t.left()[i], s) by {
        if i < h.left().len() {
            let y = h.left()[i];
            lemma_plain_commutes(g, y);
            assert(s.left()[g.left().len() + i] == plain_sum(g, y));
            if ge(t.left()[i], s) {
                lemma_ge_transitive(plain_sum(g, y), plain_sum(y, g), s);
            }
        } else {
            let j = i - h.left().len();
            let x = g.left()[j];
            assert(t.left()[h.left().len() + j] == plain_sum(h, x));
            lemma_plain_commutes(x, h);
            assert(s.left()[j] == plain_sum(x, h));
            if ge(plain_sum(h, x), s) {
                lemma_ge_transitive(plain_sum(x, h), plain_sum(h, x), s);
            }
        }
    }
}

/// Sums of games of the same values have the same value.
pub proof fn lemma_plain_congruent(a: Form, b: Form, c: Form, d: Form)
    requires
        a.wf(),
        b.wf(),
        c.wf(),
        d.wf(),
        equal_value(a, b),
        equal_value(c, d),
    ensures
        plain_sum(a, c).wf(),
        plain_sum(b, d).wf(),
        equal_value(plain_sum(a, c), plain_sum(b, d)),
{
    lemma_plain_options(a, c);
    lemma_plain_options(b, c);
    lemma_plain_options(b, d);
    lemma_plain_options(c, b);
    lemma_plain_options(d, b);
    // a + c = b + c
    lemma_plain_monotone(a, b, c);
    lemma_plain_monotone(b, a, c);
    // b + c = c + b = d + b = b + d
    lemma_plain_commutes(b, c);
    lemma_plain_commutes(c, b);
    lemma_plain_monotone(c, d, b);
    lemma_plain_monotone(d, c, b);
    lemma_plain_commutes(b, d);
    lemma_plain_commutes(d, b);
    lemma_equal_value_transitive(plain_sum(a, c), plain_sum(b, c), plain_sum(c, b));
    lemma_equal_value_transitive(plain_sum(a, c), plain_sum(c, b), plain_sum(d, b));
    lemma_equal_value_transitive(plain_sum(a, c), plain_sum(d, b), plain_sum(b, d));
}

/// The sum is associative, in value.
pub proof fn lemma_plain_associates(a: Form, b: Form, c: Form)
    requires
        a.wf(),
        b.wf(),
        c.wf(),
    ensures
        plain_sum(plain_sum(a, b), c).wf(),
        plain_sum(a, plain_sum(b, c)).wf(),
        equal_value(plain_sum(plain_sum(a, b), c), plain_sum(a, plain_sum(b, c))),
    decreases a.rank() + b.rank() + c.rank(),
{
    let ab = plain_sum(a, b);
    let bc = plain_sum(b, c);
    let l = plain_sum(ab, c);
    let r = plain_sum(a, bc);
    a.lemma_options();
    b.lemma_options();
    c.lemma_options();
    lemma_plain_options(a, b);
    lemma_plain_options(b, c);
    lemma_plain_options(ab, c);
    lemma_plain_options(a, bc);
    assert forall|i: int| 0 <= i < l.left().len() implies equal_value(
        #[trigger] l.left()[i],
        r.left()[i],
    ) by {
        if i < a.left().len() {
            assert(ab.left()[i] == plain_sum(a.left()[i], b));
            assert(l.left()[i] == plain_sum(ab.left()[i], c));
            lemma_plain_associates(a.left()[i], b, c);
        } else if i < a.left().len() + b.left().len() {
            let j = i - a.left().len();
            assert(ab.left()[a.left().len() + j] == plain_sum(a, b.left()[j]));
            assert(l.left()[i] == plain_sum(ab.left()[i], c));
            assert(bc.left()[j] == plain_sum(b.left()[j], c));
            assert(r.left()[a.left().len() + j] == plain_sum(a, bc.left()[j]));
            lemma_plain_associates(a, b.left()[j], c);
        } else {
            let j = i - ab.left().len();
            assert(l.left()[ab.left().len() + j] == plain_sum(ab, c.left()[j]));
            assert(bc.left()[b.left().len() + j] == plain_sum(b, c.left()[j]));
            assert(r.left()[a.left().len() + (b.left().len() + j)] == plain_sum(
                a,
                bc.left()[b.left().len() + j],
            ));
            lemma_plain_associates(a, b, c.left()[j]);
        }
    }
    assert forall|i: int| 0 <= i < l.right().len() implies equal_value(
        #[trigger] l.right()[i],
        r.right()[i],
    ) by {
        if i < a.right().len() {
            assert(ab.right()[i] == plain_sum(a.right()[i], b));
            assert(l.right()[i] == plain_sum(ab.right()[i], c));
            lemma_plain_associates(a.right()[i], b, c);
        } else if i < a.right().len() + b.right().len() {
            let j = i - a.right().len();
            assert(ab.right()[a.right().len() + j] == plain_sum(a, b.right()[j]));
            assert(l.right()[i] == plain_sum(ab.right()[i], c));
            assert(bc.right()[j] == plain_sum(b.right()[j], c));
            assert(r.right()[a.right().len() + j] == plain_sum(a, bc.right()[j]));
            lemma_plain_associates(a, b.right()[j], c);
        } else {
            let j = i - ab.right().len();
            assert(l.right()[ab.right().len() + j] == plain_sum(ab, c.right()[j]));
            assert(bc.right()[b.right().len() + j] == plain_sum(b, c.right()[j]));
            assert(r.right()[a.right().len() + (b.right().len() + j)] == plain_sum(
                a,
                bc.right()[b.right().len() + j],
            ));
            lemma_plain_associates(a, b, c.right()[j]);
        }
    }
    lemma_congruent(l, r);
}

} // verus!
