//! Table of the canonical forms of positions that were computed before.

use crate::short::partizan::canonical_form::CanonicalForm;
use crate::short::partizan::game_form::Form;
use crate::rw_hash_map::RwHashMap;
use crate::short::partizan::partizan_game::PartizanGame;
use vstd::prelude::*;

verus! {

/// Table that keeps the canonical form of each position it was given, at
/// most one for each position. Positions are found by their fingerprints:
/// the positions with the same fingerprint form a chain, the last one kept first.
pub struct TranspositionTable<G> {
    positions: Vec<G>,
    values: Vec<CanonicalForm>,
    /// for each position the place after the next one of its chain, or 0 at its end
    next: Vec<usize>,
    /// for each fingerprint the place after the first position of its chain
    heads: RwHashMap<u64, usize>,
}

/// Whether the chain that starts before the place `start` holds the place `i`.
pub open spec fn in_chain(next: Seq<usize>, start: usize, i: int) -> bool
    decreases start,
{
    if start == 0 || start > next.len() || next[start - 1] >= start {
        false
    } else {
        start - 1 == i || in_chain(next, next[start - 1], i)
    }
}

/// A chain does not depend on the places after it.
pub proof fn lemma_chain_prefix(next: Seq<usize>, more: Seq<usize>, start: usize, i: int)
    requires
        next.len() <= more.len(),
        forall|k: int| 0 <= k < next.len() ==> next[k] == more[k],
        start <= next.len(),
    ensures
        in_chain(next, start, i) == in_chain(more, start, i),
    decreases start,
{
    if start != 0 && next[start - 1] < start {
        lemma_chain_prefix(next, more, next[start - 1], i);
    }
}

/// The map of the first `n` positions to their canonical forms.
pub open spec fn entries<K>(keys: Seq<K>, values: Seq<Form>, n: nat) -> Map<K, Form>
    decreases n,
{
    if n == 0 {
        Map::empty()
    } else {
        entries(keys, values, (n - 1) as nat).insert(keys[n - 1], values[n - 1])
    }
}

/// What the map of distinct keys holds.
pub proof fn lemma_entries<K>(keys: Seq<K>, values: Seq<Form>, n: nat)
    requires
        n <= keys.len(),
        n <= values.len(),
        forall|i: int, j: int| 0 <= i < j < keys.len() ==> keys[i] != keys[j],
    ensures
        entries(keys, values, n).dom().finite(),
        entries(keys, values, n).len() == n,
        forall|k: K|
            entries(keys, values, n).contains_key(k) <==> exists|i: int|
                0 <= i < n && #[trigger] keys[i] == k,
        forall|i: int| 0 <= i < n ==> entries(keys, values, n)[#[trigger] keys[i]] == values[i],
    decreases n,
{
    if n > 0 {
        let m = (n - 1) as nat;
        lemma_entries(keys, values, m);
        let before = entries(keys, values, m);
        assert(!before.contains_key(keys[n - 1])) by {
            if before.contains_key(keys[n - 1]) {
                let i = choose|i: int| 0 <= i < m && #[trigger] keys[i] == keys[n - 1];
            }
        }
        assert forall|k: K|
            entries(keys, values, n).contains_key(k) <==> exists|i: int|
                0 <= i < n && #[trigger] keys[i] == k by {
            if entries(keys, values, n).contains_key(k) {
                if k == keys[n - 1] {
                    assert(keys[n - 1] == k);
                } else {
                    assert(before.contains_key(k));
                    let i = choose|i: int| 0 <= i < m && #[trigger] keys[i] == k;
                    assert(0 <= i < n && keys[i] == k);
                }
            }
            if exists|i: int| 0 <= i < n && #[trigger] keys[i] == k {
                let i = choose|i: int| 0 <= i < n && #[trigger] keys[i] == k;
                if i < m {
                    assert(before.contains_key(k));
                }
            }
        }
    }
}

impl<G: PartizanGame> TranspositionTable<G> {
    /// The positions of the table, by their views.
    pub closed spec fn keys(&self) -> Seq<G::V> {
        Seq::new(self.positions@.len(), |i: int| self.positions@[i]@)
    }

    /// The canonical forms of the table.
    pub closed spec fn forms(&self) -> Seq<Form> {
        Seq::new(self.values@.len(), |i: int| self.values@[i]@)
    }

    /// Each position is kept once, with one canonical form, and it is found
    /// in the chain of its fingerprint.
    pub closed spec fn wf(&self) -> bool {
        &&& self.positions@.len() == self.values@.len()
        &&& self.positions@.len() == self.next@.len()
        &&& forall|i: int, j: int| 0 <= i < j < self.keys().len() ==> self.keys()[i] != self.keys()[j]
        &&& forall|i: int| 0 <= i < self.keys().len() ==> G::valid(#[trigger] self.keys()[i])
        &&& forall|i: int| 0 <= i < self.next@.len() ==> #[trigger] self.next@[i] <= i
        &&& forall|h: u64| #[trigger] self.heads@.contains_key(h) ==> self.heads@[h] <= self.next@.len()
        &&& forall|i: int|
            0 <= i < self.keys().len() ==> self.heads@.contains_key(
                G::fingerprint_of(#[trigger] self.keys()[i]),
            ) && in_chain(self.next@, self.heads@[G::fingerprint_of(self.keys()[i])], i)
    }

    /// The canonical form that the table holds for each of its positions.
    pub closed spec fn view(&self) -> Map<G::V, Form> {
        entries(self.keys(), self.forms(), self.keys().len())
    }

    /// The table holds finitely many positions.
    pub proof fn lemma_finite(&self)
        requires
            self.wf(),
        ensures
            self@.dom().finite(),
    {
        lemma_entries(self.keys(), self.forms(), self.keys().len());
    }

    /// Create a table without positions.
    pub fn new() -> (table: Self)
        ensures
            table.wf(),
            table@ == Map::<G::V, Form>::empty(),
            table@.dom().finite(),
    {
        TranspositionTable {
            positions: Vec::new(),
            values: Vec::new(),
            next: Vec::new(),
            heads: RwHashMap::new(),
        }
    }

    /// The place of the position in the table.
    fn find(&self, position: &G) -> (r: Option<usize>)
        requires
            self.wf(),
            G::valid(position@),
        ensures
            match r {
                Some(i) => i < self.keys().len() && self.keys()[i as int] == position@,
                None => forall|j: int| 0 <= j < self.keys().len() ==> self.keys()[j] != position@,
            },
    {
        broadcast use vstd::std_specs::hash::group_hash_axioms;

        let h = position.fingerprint();
        let mut at: usize = match self.heads.get(&h) {
            Some(head) => head,
            None => {
                return None;
            },
        };
        // follow the chain of the fingerprint
        while at != 0
            invariant
                self.wf(),
                at <= self.next@.len(),
                h == G::fingerprint_of(position@),
                forall|j: int|
                    0 <= j < self.keys().len() && self.keys()[j] == position@ ==> in_chain(
                        self.next@,
                        at,
                        j,
                    ),
            decreases at,
        {
            let i = at - 1;
            if self.positions[i].same(position) {
                return Some(i);
            }
            assert(self.next@[i as int] <= i);
            at = self.next[i];
        }
        None
    }

    /// Lookup the canonical form of a position.
    pub fn get(&self, position: &G) -> (r: Option<CanonicalForm>)
        requires
            self.wf(),
            G::valid(position@),
        ensures
            match r {
                Some(value) => self@.contains_key(position@) && value@ == self@[position@],
                None => !self@.contains_key(position@),
            },
    {
        proof {
            lemma_entries(self.keys(), self.forms(), self.keys().len());
        }
        match self.find(position) {
            Some(i) => {
                assert(self.keys()[i as int] == position@);
                Some(self.values[i].duplicate())
            },
            None => {
                proof {
                    if self@.contains_key(position@) {
                        let i = choose|i: int|
                            0 <= i < self.keys().len() && #[trigger] self.keys()[i] == position@;
                    }
                }
                None
            },
        }
    }

    /// Keep the canonical form of a position. What the table held for the
    /// position before is replaced.
    pub fn insert(&mut self, position: G, value: CanonicalForm)
        requires
            old(self).wf(),
            G::valid(position@),
        ensures
            final(self).wf(),
            final(self)@ == old(self)@.insert(position@, value@),
            old(self)@.dom().finite(),
            final(self)@.dom().finite(),
            final(self)@.len() == old(self)@.len() + (if old(self)@.contains_key(position@) {
                0nat
            } else {
                1nat
            }),
    {
        broadcast use vstd::std_specs::hash::group_hash_axioms;

        let ghost keys = self.keys();
        let ghost forms = self.forms();
        let ghost links = self.next@;
        let ghost heads = self.heads@;
        proof {
            lemma_entries(keys, forms, keys.len());
        }
        match self.find(&position) {
            Some(i) => {
                self.values.set(i, value);
                proof {
                    assert(self.keys() =~= keys);
                    assert(self.forms() =~= forms.update(i as int, value@));
                    lemma_entries(self.keys(), self.forms(), keys.len());
                    assert(self@ =~= old(self)@.insert(position@, value@)) by {
                        assert forall|k: G::V| old(self)@.insert(position@, value@).contains_key(k)
                            implies #[trigger] self@.contains_key(k) && self@[k] == old(self)@.insert(
                            position@,
                            value@,
                        )[k] by {
                            let j = choose|j: int| 0 <= j < keys.len() && #[trigger] keys[j] == k;
                            assert(self.keys()[j] == k);
                        }
                        assert forall|k: G::V| #[trigger] self@.contains_key(k) implies old(
                            self,
                        )@.insert(position@, value@).contains_key(k) by {
                            let j = choose|j: int|
                                0 <= j < keys.len() && #[trigger] self.keys()[j] == k;
                            assert(keys[j] == k);
                        }
                    }
                }
            },
            None => {
                let h = position.fingerprint();
                let head = match self.heads.get(&h) {
                    Some(head) => head,
                    None => 0,
                };
                let ghost n = self.positions@.len();
                self.positions.push(position);
                self.values.push(value);
                self.next.push(head);
                let place = self.positions.len();
                self.heads.insert(h, place);
                proof {
                    assert(self.keys() =~= keys.push(position@));
                    assert(self.forms() =~= forms.push(value@));
                    lemma_entries_prefix(self.keys(), self.forms(), keys, forms, keys.len());
                    assert forall|i: int| 0 <= i < self.keys().len() implies self.heads@.contains_key(
                        G::fingerprint_of(#[trigger] self.keys()[i]),
                    ) && in_chain(self.next@, self.heads@[G::fingerprint_of(self.keys()[i])], i) by {
                        let f = G::fingerprint_of(self.keys()[i]);
                        if i < n {
                            assert(self.keys()[i] == keys[i]);
                            assert(in_chain(links, heads[f], i));
                            lemma_chain_prefix(links, self.next@, heads[f], i);
                        }
                    }
                }
            },
        }
        proof {
            self.lemma_finite();
        }
    }

    /// Get number of positions in the table.
    pub fn len(&self) -> (n: usize)
        requires
            self.wf(),
        ensures
            n == self@.len(),
            self@.dom().finite(),
    {
        proof {
            lemma_entries(self.keys(), self.forms(), self.keys().len());
        }
        self.positions.len()
    }

    /// Remove all positions from the table.
    pub fn clear(&mut self)
        ensures
            final(self).wf(),
            final(self)@ == Map::<G::V, Form>::empty(),
            final(self)@.dom().finite(),
    {
        self.positions.clear();
        self.values.clear();
        self.next.clear();
        self.heads.clear();
    }
}

/// The map of the first entries does not depend on the entries after them.
pub proof fn lemma_entries_prefix<K>(
    keys: Seq<K>,
    values: Seq<Form>,
    keys_before: Seq<K>,
    values_before: Seq<Form>,
    n: nat,
)
    requires
        n <= keys_before.len() <= keys.len(),
        n <= values_before.len() <= values.len(),
        forall|i: int| 0 <= i < n ==> keys[i] == keys_before[i],
        forall|i: int| 0 <= i < n ==> values[i] == values_before[i],
    ensures
        entries(keys, values, n) == entries(keys_before, values_before, n),
    decreases n,
{
    if n > 0 {
        lemma_entries_prefix(keys, values, keys_before, values_before, (n - 1) as nat);
    }
}

} // verus!
