//! Nimbers: values of single Nim heaps. Addition is the bitwise exclusive or.

use crate::graph::count_true;
use crate::graph::lemma_count_true_bound;
use crate::graph::lemma_count_true_update;
use crate::graph::lemma_count_zero;
use vstd::prelude::*;

verus! {

/// Number of the form `*k`, the value of a Nim heap of size `k`.
#[derive(Debug, Clone, Copy, Hash, PartialEq, Eq, Structural)]
pub struct Nimber {
    value: u32,
}

impl View for Nimber {
    type V = u32;

    closed spec fn view(&self) -> u32 {
        self.value
    }
}

/// Whether `j` is among the first `upto` entries of `values`.
pub open spec fn occurs(values: Seq<u32>, upto: int, j: int) -> bool {
    exists|k: int| 0 <= k < upto && #[trigger] values[k] == j
}

/// `m` is the least number that is no entry of `values`.
pub open spec fn is_mex(values: Seq<u32>, m: int) -> bool {
    &&& 0 <= m
    &&& !occurs(values, values.len() as int, m)
    &&& forall|j: int| 0 <= j < m ==> #[trigger] occurs(values, values.len() as int, j)
}

/// If every mark is set, the count of set marks is the number of marks.
proof fn lemma_count_all(marks: Seq<bool>)
    requires
        forall|i: int| 0 <= i < marks.len() ==> marks[i],
    ensures
        count_true(marks) == marks.len(),
    decreases marks.len(),
{
    if marks.len() > 0 {
        lemma_count_all(marks.drop_last());
    }
}

impl Nimber {
    /// Construct `*value`.
    pub fn new(value: u32) -> (n: Self)
        ensures
            n@ == value,
    {
        Nimber { value }
    }

    /// The size of the Nim heap.
    pub fn value(&self) -> (value: u32)
        ensures
            value == self@,
    {
        self.value
    }

    /// Nim-sum: `*a + *b = *(a XOR b)`.
    pub fn add(&self, other: &Nimber) -> (n: Self)
        ensures
            n@ == self@ ^ other@,
    {
        Nimber { value: self.value ^ other.value }
    }

    /// Every nimber is its own negative.
    pub fn neg(&self) -> (n: Self)
        ensures
            n@ == self@,
    {
        *self
    }

    /// Minimum excludant: the least number that is not among `values`.
    pub fn mex(values: &[u32]) -> (m: u32)
        requires
            values@.len() <= u32::MAX,
        ensures
            is_mex(values@, m as int),
            m <= values@.len(),
    {
        let n = values.len();
        // marks[j] says whether j is among the values, for j < n
        let mut marks = vec![false; n];
        assert(marks@ =~= Seq::new(n as nat, |i: int| false));
        proof {
            lemma_count_zero(n as nat);
        }
        let mut i: usize = 0;
        while i < n
            invariant
                i <= n,
                n == values@.len(),
                marks@.len() == n,
                count_true(marks@) <= i,
                forall|j: int|
                    0 <= j < n ==> (#[trigger] marks@[j] <==> occurs(values@, i as int, j)),
            decreases n - i,
        {
            let v = values[i];
            let ghost before = marks@;
            if (v as usize) < n && !marks[v as usize] {
                proof {
                    lemma_count_true_update(marks@, v as int);
                }
                marks.set(v as usize, true);
            }
            i += 1;
            assert forall|j: int| 0 <= j < n implies (#[trigger] marks@[j] <==> occurs(
                values@,
                i as int,
                j,
            )) by {
                if marks@[j] {
                    if before[j] {
                        let k = choose|k: int| 0 <= k < i - 1 && #[trigger] values@[k] == j;
                        assert(0 <= k < i && values@[k] == j);
                    } else {
                        assert(values@[i - 1] == j);
                    }
                }
                if occurs(values@, i as int, j) {
                    let k = choose|k: int| 0 <= k < i && #[trigger] values@[k] == j;
                    if k < i - 1 {
                        assert(occurs(values@, i - 1, j));
                    }
                }
            }
        }
        let mut m: usize = 0;
        while m < n && marks[m]
            invariant
                m <= n,
                marks@.len() == n,
                forall|j: int| 0 <= j < m ==> marks@[j],
            decreases n - m,
        {
            m += 1;
        }
        proof {
            if m == n && n > 0 {
                // all n marks are set by values below n: then no value is n
                lemma_count_all(marks@);
            }
            if occurs(values@, n as int, m as int) {
                let k = choose|k: int| 0 <= k < n && #[trigger] values@[k] == m;
                if m < n {
                    assert(marks@[m as int]);
                } else {
                    lemma_mex_full(values@, marks@, k);
                }
            }
            assert forall|j: int| 0 <= j < m implies #[trigger] occurs(values@, n as int, j) by {
                assert(marks@[j]);
            }
        }
        m as u32
    }
}

/// The marks below `n` that `values` sets are no more than the values below
/// `n` among the first `upto` of them.
pub open spec fn count_below(values: Seq<u32>, n: int, upto: int) -> int
    decreases upto,
{
    if upto <= 0 {
        0
    } else {
        count_below(values, n, upto - 1) + if values[upto - 1] < n {
            1int
        } else {
            0int
        }
    }
}

/// No more values are below `n` than there are values.
proof fn lemma_count_below_bound(values: Seq<u32>, n: int, upto: int)
    requires
        0 <= upto <= values.len(),
    ensures
        0 <= count_below(values, n, upto) <= upto,
        (exists|k: int| 0 <= k < upto && values[k] >= n) ==> count_below(values, n, upto) < upto,
    decreases upto,
{
    if upto > 0 {
        lemma_count_below_bound(values, n, upto - 1);
        if exists|k: int| 0 <= k < upto && values[k] >= n {
            let k = choose|k: int| 0 <= k < upto && values[k] >= n;
            if k < upto - 1 {
                assert(exists|k: int| 0 <= k < upto - 1 && values[k] >= n);
            }
        }
    }
}

/// The marks set by the first `upto` values are no more than the values
/// below `n` among them.
proof fn lemma_marks_count(values: Seq<u32>, n: int, upto: int) -> (marks: Seq<bool>)
    requires
        0 <= upto <= values.len(),
        0 <= n,
    ensures
        marks.len() == n,
        forall|j: int|
            0 <= j < n ==> (#[trigger] marks[j] <==> occurs(values, upto, j)),
        count_true(marks) <= count_below(values, n, upto),
    decreases upto,
{
    if upto == 0 {
        lemma_count_zero(n as nat);
        Seq::new(n as nat, |i: int| false)
    } else {
        let before = lemma_marks_count(values, n, upto - 1);
        let v = values[upto - 1] as int;
        let marks = if v < n && !before[v] {
            lemma_count_true_update(before, v);
            before.update(v, true)
        } else {
            before
        };
        assert forall|j: int| 0 <= j < n implies (#[trigger] marks[j] <==> occurs(
            values,
            upto,
            j,
        )) by {
            if marks[j] {
                if before[j] {
                    let k = choose|k: int| 0 <= k < upto - 1 && #[trigger] values[k] == j;
                    assert(0 <= k < upto && values[k] == j);
                } else {
                    assert(values[upto - 1] == j);
                }
            }
            if occurs(values, upto, j) {
                let k = choose|k: int| 0 <= k < upto && #[trigger] values[k] == j;
                if k < upto - 1 {
                    assert(occurs(values, upto - 1, j));
                }
            }
        }
        marks
    }
}

/// If all `n` marks are set by `n` values, every value is below `n`.
proof fn lemma_mex_full(values: Seq<u32>, marks: Seq<bool>, k: int)
    requires
        marks.len() == values.len(),
        0 <= k < values.len(),
        forall|j: int| 0 <= j < marks.len() ==> marks[j],
        forall|j: int|
            0 <= j < marks.len() ==> (#[trigger] marks[j] <==> occurs(
                values,
                values.len() as int,
                j,
            )),
    ensures
        values[k] < values.len(),
{
    let n = values.len() as int;
    if values[k] >= n {
        let other = lemma_marks_count(values, n, n);
        assert(other =~= marks);
        lemma_count_all(marks);
        lemma_count_below_bound(values, n, n);
    }
}

} // verus!
