//! Every game with canonical options has a canonical form.

use crate::short::partizan::canonical_form::all_absorbed;
use crate::short::partizan::canonical_form::all_kept_ok;
use crate::short::partizan::canonical_form::distinct;
use crate::short::partizan::canonical_form::extends;
use crate::short::partizan::canonical_form::kept_ok;
use crate::short::partizan::canonical_form::lemma_dominated_skip;
use crate::short::partizan::canonical_form::lemma_extends_dominates;
use crate::short::partizan::canonical_form::lemma_kept_wf;
use crate::short::partizan::canonical_form::lemma_no_dominated_distinct;
use crate::short::partizan::canonical_form::lemma_pruning_push;
use crate::short::partizan::canonical_form::lemma_pruning_remove;
use crate::short::partizan::canonical_form::lemma_pruning_start;
use crate::short::partizan::canonical_form::lemma_simplified;
use crate::short::partizan::canonical_form::lemma_sort_insert;
use crate::short::partizan::canonical_form::lemma_subset_wf;
use crate::short::partizan::canonical_form::pruning;
use crate::short::partizan::canonical_form::simplified_side;
use crate::short::partizan::canonical_form::subset_of;
use crate::short::partizan::game_form::absorbed;
use crate::short::partizan::game_form::all_canonical;
use crate::short::partizan::game_form::all_wf;
use crate::short::partizan::game_form::better;
use crate::short::partizan::game_form::bypassed;
use crate::short::partizan::game_form::dominated_by;
use crate::short::partizan::game_form::equal_value;
use crate::short::partizan::game_form::expands;
use crate::short::partizan::game_form::form_order;
use crate::short::partizan::game_form::has_better;
use crate::short::partizan::game_form::lemma_absorbed_monotone;
use crate::short::partizan::game_form::lemma_absorbed_unfold;
use crate::short::partizan::game_form::lemma_after_reversal;
use crate::short::partizan::game_form::lemma_better_reflexive;
use crate::short::partizan::game_form::lemma_order_antisymmetric;
use crate::short::partizan::game_form::lemma_order_equal;
use crate::short::partizan::game_form::lemma_order_transitive;
use crate::short::partizan::game_form::lemma_same_options;
use crate::short::partizan::game_form::lemma_second_options;
use crate::short::partizan::game_form::lemma_side_options;
use crate::short::partizan::game_form::lemma_sorted_pairwise;
use crate::short::partizan::game_form::no_dominated;
use crate::short::partizan::game_form::not_reversible;
use crate::short::partizan::game_form::opp;
use crate::short::partizan::game_form::own;
use crate::short::partizan::game_form::sorted;
use crate::short::partizan::game_form::Form;
use crate::short::partizan::game_form::NumberUpStar;
use crate::short::partizan::game_form::lemma_ge_reflexive;
use crate::short::partizan::game_sum::adds_by_parts;
use crate::short::partizan::game_sum::form_sum;
use crate::short::partizan::game_sum::lemma_congruent;
use crate::short::partizan::game_sum::lemma_equal_value_transitive;
use crate::short::partizan::game_sum::lemma_sum_options;
use crate::short::partizan::simplest_form::canonical_of;
use crate::short::partizan::simplest_form::lemma_canonical_of;
use crate::short::partizan::simplest_form::neg_value;
use crate::short::partizan::simplest_form::sum_of;
use crate::short::partizan::simplest_form::sum_value;
use vstd::prelude::*;

verus! {

/// What stands for the option `o` of the player once the reversible
/// options are bypassed, appended to `before`.
pub proof fn lemma_resolve(o: Form, g: Form, left: bool, before: Seq<Form>) -> (after: Seq<Form>)
    requires
        o.canonical(),
        g.wf(),
        !better(o, g, left),
        all_kept_ok(before, g, left),
    ensures
        extends(before, after),
        all_kept_ok(after, g, left),
        absorbed(o, g, after, left),
    decreases o.rank(), 1nat, 0nat,
{
    o.lemma_canonical();
    lemma_side_options(o, left);
    lemma_second_options(o, left);
    if exists|i: int| 0 <= i < opp(o, left).len() && better(g, #[trigger] opp(o, left)[i], left) {
        let i = choose|i: int|
            0 <= i < opp(o, left).len() && better(g, #[trigger] opp(o, left)[i], left);
        let x = opp(o, left)[i];
        assert(x.canonical()) by {
            if left {
                assert(o.right()[i].canonical());
            } else {
                assert(o.left()[i].canonical());
            }
        }
        x.lemma_canonical();
        lemma_side_options(x, left);
        let seconds = own(x, left);
        assert forall|j: int| 0 <= j < seconds.len() implies (#[trigger] seconds[j]).canonical()
            && !better(seconds[j], g, left) && seconds[j].rank() < o.rank() by {
            if left {
                assert(x.left()[j].canonical());
            } else {
                assert(x.right()[j].canonical());
            }
            lemma_after_reversal(g, x, j, left);
        }
        let after = lemma_resolve_all(seconds, seconds.len(), g, left, before, o.rank());
        lemma_absorbed_unfold(o, g, after, left);
        assert(bypassed(o, i, g, after, left));
        after
    } else {
        let after = before.push(o);
        lemma_better_reflexive(o, left);
        lemma_absorbed_unfold(o, g, after, left);
        assert(better(after[after.len() - 1], o, left));
        assert(has_better(after, o, left));
        assert(not_reversible(o, g, left));
        assert forall|k: int| 0 <= k < after.len() implies kept_ok(#[trigger] after[k], g, left) by {
            if k < before.len() {
                assert(after[k] == before[k]);
            }
        }
        after
    }
}

/// What stands for the first `n` of the options, appended to `before`.
pub proof fn lemma_resolve_all(
    options: Seq<Form>,
    n: nat,
    g: Form,
    left: bool,
    before: Seq<Form>,
    bound: nat,
) -> (after: Seq<Form>)
    requires
        n <= options.len(),
        g.wf(),
        forall|k: int|
            0 <= k < options.len() ==> (#[trigger] options[k]).canonical() && !better(
                options[k],
                g,
                left,
            ) && options[k].rank() < bound,
        all_kept_ok(before, g, left),
    ensures
        extends(before, after),
        all_kept_ok(after, g, left),
        all_absorbed(options, n as int, g, after, left),
    decreases bound, 0nat, n,
{
    if n == 0 {
        before
    } else {
        let middle = lemma_resolve_all(options, (n - 1) as nat, g, left, before, bound);
        let after = lemma_resolve(options[n - 1], g, left, middle);
        lemma_kept_wf(after, g, left);
        lemma_kept_wf(middle, g, left);
        lemma_extends_dominates(middle, after, left);
        assert forall|j: int| 0 <= j < n implies absorbed(#[trigger] options[j], g, after, left) by {
            options[j].lemma_canonical();
            if j < n - 1 {
                lemma_absorbed_monotone(options[j], g, middle, after, left);
            }
        }
        after
    }
}

/// What is left of `now` from the place `k` on once the forms that `o`
/// makes needless are dropped.
pub proof fn lemma_prune(kept: Seq<Form>, now: Seq<Form>, k: int, o: Form, left: bool) -> (rest: Seq<
    Form,
>)
    requires
        all_wf(kept),
        o.wf(),
        pruning(kept, now, o, left),
        0 <= k <= now.len(),
        forall|m: int| 0 <= m < k ==> !better(o, #[trigger] now[m], left),
    ensures
        pruning(kept, rest, o, left),
        forall|m: int| 0 <= m < rest.len() ==> !better(o, #[trigger] rest[m], left),
    decreases now.len() - k,
{
    if k >= now.len() {
        now
    } else if better(o, now[k], left) {
        lemma_pruning_remove(kept, now, k, o, left);
        let next = now.remove(k);
        assert forall|m: int| 0 <= m < k implies !better(o, #[trigger] next[m], left) by {
            assert(next[m] == now[m]);
        }
        lemma_prune(kept, next, k, o, left)
    } else {
        lemma_prune(kept, now, k + 1, o, left)
    }
}

/// The first `n` forms without those that another one makes needless.
pub proof fn lemma_eliminate(list: Seq<Form>, n: nat, left: bool) -> (out: Seq<Form>)
    requires
        n <= list.len(),
        all_wf(list),
    ensures
        all_wf(out),
        subset_of(out, list),
        dominated_by(list.take(n as int), out, left),
        no_dominated(out, left),
    decreases n,
{
    if n == 0 {
        Seq::empty()
    } else {
        let kept = lemma_eliminate(list, (n - 1) as nat, left);
        let o = list[n - 1];
        if has_better(kept, o, left) {
            lemma_dominated_skip(list, n - 1, kept, left);
            kept
        } else {
            lemma_pruning_start(kept, o, left);
            let rest = lemma_prune(kept, kept, 0, o, left);
            lemma_pruning_push(list, n - 1, kept, rest, left);
            rest.push(o)
        }
    }
}

/// The place at which `x` belongs in the sorted sequence `now`, from `k` on.
pub proof fn lemma_place(now: Seq<Form>, x: Form, k: int) -> (p: int)
    requires
        sorted(now),
        !now.contains(x),
        0 <= k <= now.len(),
        forall|m: int| 0 <= m < k ==> form_order(#[trigger] now[m], x) is Less,
    ensures
        0 <= p <= now.len(),
        forall|m: int| p <= m < now.len() ==> form_order(x, #[trigger] now[m]) is Less,
        p > 0 ==> form_order(now[p - 1], x) is Less,
    decreases now.len() - k,
{
    if k >= now.len() {
        k
    } else if form_order(now[k], x) is Less {
        lemma_place(now, x, k + 1)
    } else {
        // `x` comes before `now[k]`, and so before all the forms after it
        lemma_order_antisymmetric(now[k], x);
        lemma_order_equal(now[k], x);
        assert(now.contains(now[k]));
        assert forall|m: int| k <= m < now.len() implies form_order(x, #[trigger] now[m]) is Less by {
            if m > k {
                lemma_sorted_pairwise(now, k, m);
                lemma_order_transitive(x, now[k], now[m]);
            }
        }
        k
    }
}

/// The first `n` forms, listed in order.
pub proof fn lemma_sort(list: Seq<Form>, n: nat) -> (out: Seq<Form>)
    requires
        n <= list.len(),
        distinct(list),
    ensures
        sorted(out),
        distinct(out),
        subset_of(out, list.take(n as int)),
        subset_of(list.take(n as int), out),
    decreases n,
{
    if n == 0 {
        Seq::empty()
    } else {
        let now = lemma_sort(list, (n - 1) as nat);
        let x = list[n - 1];
        let part = list.take(n - 1);
        if now.contains(x) {
            let k = choose|k: int| 0 <= k < now.len() && now[k] == x;
            assert(part.contains(now[k]));
            let j = choose|j: int| 0 <= j < part.len() && part[j] == now[k];
            assert(list[j] == list[n - 1]);
            assert(false);
        }
        let p = lemma_place(now, x, 0);
        lemma_sort_insert(now, x, p);
        let out = now.insert(p, x);
        let whole = list.take(n as int);
        assert forall|k: int| 0 <= k < out.len() implies whole.contains(#[trigger] out[k]) by {
            assert(out.contains(out[k]));
            if out[k] == x {
                assert(whole[n - 1] == x);
            } else {
                assert(now.contains(out[k]));
                let m = choose|m: int| 0 <= m < now.len() && now[m] == out[k];
                assert(part.contains(now[m]));
                let j = choose|j: int| 0 <= j < part.len() && part[j] == now[m];
                assert(whole[j] == out[k]);
            }
        }
        assert forall|j: int| 0 <= j < whole.len() implies out.contains(#[trigger] whole[j]) by {
            if j < n - 1 {
                assert(whole[j] == part[j]);
                assert(now.contains(part[j]));
            }
        }
        out
    }
}

/// One side of the game `g`, simplified: the reversible options bypassed,
/// the dominated ones dropped, the rest listed in order.
pub proof fn lemma_simplify_side(g: Form, left: bool) -> (sides: (Seq<Form>, Seq<Form>, Seq<Form>))
    requires
        g.wf(),
        all_canonical(own(g, left)),
    ensures
        simplified_side(g, sides.0, sides.1, sides.2, left),
{
    let options = own(g, left);
    lemma_better_reflexive(g, left);
    lemma_side_options(g, left);
    let s1 = lemma_resolve_all(options, options.len(), g, left, Seq::empty(), g.rank());
    lemma_kept_wf(s1, g, left);
    let s2 = lemma_eliminate(s1, s1.len(), left);
    assert(s1.take(s1.len() as int) =~= s1);
    lemma_no_dominated_distinct(s2, left);
    let s3 = lemma_sort(s2, s2.len());
    assert(s2.take(s2.len() as int) =~= s2);
    (s1, s2, s3)
}

/// Existence of canonical forms: a game whose options are canonical forms
/// has the value of a canonical form.
pub proof fn lemma_canonical_exists(g: Form) -> (c: Form)
    requires
        g.wf(),
        all_canonical(g.left()),
        all_canonical(g.right()),
    ensures
        c.canonical(),
        equal_value(c, g),
{
    let l = lemma_simplify_side(g, true);
    let r = lemma_simplify_side(g, false);
    lemma_simplified(g, l.0, l.1, l.2, r.0, r.1, r.2);
    let simplest = Form::Moves(l.2, r.2);
    if exists|n: NumberUpStar| #[trigger] expands(n, l.2, r.2) {
        let n = choose|n: NumberUpStar| #[trigger] expands(n, l.2, r.2);
        let c = Form::Nus(n);
        n.lemma_options();
        lemma_same_options(c, simplest, g);
        c
    } else {
        simplest
    }
}

/// The canonical form of a game whose options are canonical forms is a
/// canonical form with the value of the game.
pub proof fn lemma_canonical_of_options(g: Form)
    requires
        g.wf(),
        all_canonical(g.left()),
        all_canonical(g.right()),
    ensures
        canonical_of(g).canonical(),
        equal_value(canonical_of(g), g),
{
    let c = lemma_canonical_exists(g);
    lemma_canonical_of(g, c);
}

/// The canonical form of each of the forms.
pub open spec fn canonical_of_each(s: Seq<Form>) -> Seq<Form> {
    Seq::new(s.len(), |i: int| canonical_of(s[i]))
}

/// A game of whose options each has a canonical form has a canonical form.
pub proof fn lemma_canonical_of_game(g: Form)
    requires
        g.wf(),
        forall|i: int|
            0 <= i < g.left().len() ==> canonical_of(#[trigger] g.left()[i]).canonical()
                && equal_value(canonical_of(g.left()[i]), g.left()[i]),
        forall|i: int|
            0 <= i < g.right().len() ==> canonical_of(#[trigger] g.right()[i]).canonical()
                && equal_value(canonical_of(g.right()[i]), g.right()[i]),
    ensures
        canonical_of(g).canonical(),
        equal_value(canonical_of(g), g),
{
    let l = canonical_of_each(g.left());
    let r = canonical_of_each(g.right());
    let m = Form::Moves(l, r);
    g.lemma_options();
    assert forall|i: int| 0 <= i < l.len() implies (#[trigger] l[i]).canonical() && l[i].wf() by {
        assert(canonical_of(g.left()[i]).canonical());
        l[i].lemma_canonical();
    }
    assert forall|i: int| 0 <= i < r.len() implies (#[trigger] r[i]).canonical() && r[i].wf() by {
        assert(canonical_of(g.right()[i]).canonical());
        r[i].lemma_canonical();
    }
    assert forall|i: int| 0 <= i < m.left().len() implies equal_value(
        #[trigger] m.left()[i],
        g.left()[i],
    ) by {
        assert(equal_value(canonical_of(g.left()[i]), g.left()[i]));
    }
    assert forall|i: int| 0 <= i < m.right().len() implies equal_value(
        #[trigger] m.right()[i],
        g.right()[i],
    ) by {
        assert(equal_value(canonical_of(g.right()[i]), g.right()[i]));
    }
    lemma_congruent(m, g);
    let c = lemma_canonical_exists(m);
    c.lemma_canonical();
    lemma_equal_value_transitive(c, m, g);
    lemma_canonical_of(g, c);
}

/// The sum of two well-formed forms has a canonical form.
pub proof fn lemma_sum_value(g: Form, h: Form)
    requires
        g.wf(),
        h.wf(),
    ensures
        form_sum(g, h).wf(),
        sum_value(g, h).canonical(),
        equal_value(sum_value(g, h), form_sum(g, h)),
    decreases g.rank() + h.rank(),
{
    let s = form_sum(g, h);
    g.lemma_options();
    h.lemma_options();
    lemma_sum_options(g, h);
    lemma_ge_reflexive(s);
    if adds_by_parts(g, h) {
        lemma_canonical_of(s, s);
    } else {
        assert forall|i: int| 0 <= i < s.left().len() implies canonical_of(
            #[trigger] s.left()[i],
        ).canonical() && equal_value(canonical_of(s.left()[i]), s.left()[i]) by {
            if i < g.left().len() {
                lemma_sum_value(g.left()[i], h);
            } else {
                let j = i - g.left().len();
                assert(s.left()[g.left().len() + j] == form_sum(g, h.left()[j]));
                lemma_sum_value(g, h.left()[j]);
            }
        }
        assert forall|i: int| 0 <= i < s.right().len() implies canonical_of(
            #[trigger] s.right()[i],
        ).canonical() && equal_value(canonical_of(s.right()[i]), s.right()[i]) by {
            if i < g.right().len() {
                lemma_sum_value(g.right()[i], h);
            } else {
                let j = i - g.right().len();
                assert(s.right()[g.right().len() + j] == form_sum(g, h.right()[j]));
                lemma_sum_value(g, h.right()[j]);
            }
        }
        lemma_canonical_of_game(s);
    }
}

/// The negative of a well-formed form has a canonical form.
pub proof fn lemma_neg_value(g: Form)
    requires
        g.wf(),
    ensures
        g.neg().wf(),
        neg_value(g).canonical(),
        equal_value(neg_value(g), g.neg()),
    decreases g.rank(),
{
    let n = g.neg();
    g.lemma_options();
    g.lemma_neg_options();
    lemma_ge_reflexive(n);
    if g is Nus && n.fits() {
        lemma_canonical_of(n, n);
    } else {
        {
            assert forall|i: int| 0 <= i < n.left().len() implies canonical_of(
                #[trigger] n.left()[i],
            ).canonical() && equal_value(canonical_of(n.left()[i]), n.left()[i]) by {
                assert(n.left()[i] == g.right()[i].neg());
                lemma_neg_value(g.right()[i]);
            }
            assert forall|i: int| 0 <= i < n.right().len() implies canonical_of(
                #[trigger] n.right()[i],
            ).canonical() && equal_value(canonical_of(n.right()[i]), n.right()[i]) by {
                assert(n.right()[i] == g.left()[i].neg());
                lemma_neg_value(g.left()[i]);
            }
            lemma_canonical_of_game(n);
        }
    }
}

/// The sum of canonical forms is a canonical form.
pub proof fn lemma_sum_of(values: Seq<Form>)
    requires
        all_canonical(values),
    ensures
        sum_of(values).canonical(),
    decreases values.len(),
{
    if values.len() > 0 {
        assert forall|i: int| 0 <= i < values.drop_last().len() implies (
        #[trigger] values.drop_last()[i]).canonical() by {
            assert(values[i].canonical());
        }
        lemma_sum_of(values.drop_last());
        sum_of(values.drop_last()).lemma_canonical();
        assert(values[values.len() - 1].canonical());
        values.last().lemma_canonical();
        lemma_sum_value(sum_of(values.drop_last()), values.last());
    }
}

} // verus!
