//! Counting the occurrences of a variable in the clauses that are not yet
//! marked as satisfied.

use crate::clause::Literals;
use vstd::prelude::*;

verus! {

/// The number of entries of `bag` that are equal to `v`.
pub open spec fn occurrences(bag: Seq<usize>, v: usize) -> nat
    decreases bag.len(),
{
    if bag.len() == 0 {
        0
    } else {
        occurrences(bag.drop_last(), v) + if bag.last() == v {
            1nat
        } else {
            0nat
        }
    }
}

/// The positive bag of a clause, or its negated bag.
pub open spec fn side(c: Literals, positive: bool) -> Seq<usize> {
    if positive {
        c.t
    } else {
        c.f
    }
}

/// The number of occurrences of `v`, with the given polarity, in the clauses
/// whose mask bit is not set.
pub open spec fn live(clauses: Seq<Literals>, mask: Seq<bool>, v: usize, positive: bool) -> nat
    decreases clauses.len(),
{
    if clauses.len() == 0 {
        0
    } else {
        let k = clauses.len() - 1;
        live(clauses.drop_last(), mask, v, positive) + if mask[k] {
            0nat
        } else {
            occurrences(side(clauses[k], positive), v)
        }
    }
}

/// The mask of a formula of `len` clauses none of which is marked.
pub open spec fn blank(len: nat) -> Seq<bool> {
    Seq::new(len, |i: int| false)
}

/// Every variable of every clause lies in `1..=n`.
pub open spec fn in_range(clauses: Seq<Literals>, n: usize) -> bool {
    forall|i: int, j: int, positive: bool|
        0 <= i < clauses.len() && 0 <= j < side(clauses[i], positive).len() ==> 1 <= (
        #[trigger] side(clauses[i], positive)[j]) <= n
}

/// A prefix of a bag extended by one entry.
pub proof fn lemma_occurrences_step(bag: Seq<usize>, j: int, v: usize)
    requires
        0 <= j < bag.len(),
    ensures
        occurrences(bag.take(j + 1), v) == occurrences(bag.take(j), v) + if bag[j] == v {
            1nat
        } else {
            0nat
        },
{
    assert(bag.take(j + 1).drop_last() =~= bag.take(j));
}

/// A prefix of a bag holds no more occurrences than the bag.
pub proof fn lemma_occurrences_prefix(bag: Seq<usize>, j: int, v: usize)
    requires
        0 <= j <= bag.len(),
    ensures
        occurrences(bag.take(j), v) <= occurrences(bag, v),
    decreases bag.len() - j,
{
    if j == bag.len() {
        assert(bag.take(j) =~= bag);
    } else {
        lemma_occurrences_step(bag, j, v);
        lemma_occurrences_prefix(bag, j + 1, v);
    }
}

/// A variable that does not occur is at no position, and conversely.
pub proof fn lemma_occurrences_none(bag: Seq<usize>, v: usize)
    ensures
        occurrences(bag, v) == 0 <==> forall|j: int| 0 <= j < bag.len() ==> #[trigger] bag[j] != v,
    decreases bag.len(),
{
    if bag.len() > 0 {
        let shorter = bag.drop_last();
        lemma_occurrences_none(shorter, v);
        if occurrences(bag, v) == 0 {
            assert forall|j: int| 0 <= j < bag.len() implies #[trigger] bag[j] != v by {
                if j < shorter.len() {
                    assert(shorter[j] != v);
                }
            }
        } else if bag.last() != v {
            let j = choose|j: int| 0 <= j < shorter.len() && #[trigger] shorter[j] == v;
            assert(bag[j] == v);
        }
    }
}

/// A prefix of a formula extended by one clause.
pub proof fn lemma_live_step(
    clauses: Seq<Literals>,
    mask: Seq<bool>,
    i: int,
    v: usize,
    positive: bool,
)
    requires
        0 <= i < clauses.len(),
    ensures
        live(clauses.take(i + 1), mask, v, positive) == live(clauses.take(i), mask, v, positive)
            + if mask[i] {
            0nat
        } else {
            occurrences(side(clauses[i], positive), v)
        },
{
    assert(clauses.take(i + 1).drop_last() =~= clauses.take(i));
}

/// A prefix of a formula holds no more live occurrences than the formula.
pub proof fn lemma_live_prefix(
    clauses: Seq<Literals>,
    mask: Seq<bool>,
    i: int,
    v: usize,
    positive: bool,
)
    requires
        0 <= i <= clauses.len(),
    ensures
        live(clauses.take(i), mask, v, positive) <= live(clauses, mask, v, positive),
    decreases clauses.len() - i,
{
    if i == clauses.len() {
        assert(clauses.take(i) =~= clauses);
    } else {
        lemma_live_step(clauses, mask, i, v, positive);
        lemma_live_prefix(clauses, mask, i + 1, v, positive);
    }
}

/// Setting or clearing one mask bit moves the occurrences of that clause
/// out of the live count or back into it.
pub proof fn lemma_live_update(
    clauses: Seq<Literals>,
    mask: Seq<bool>,
    i: int,
    bit: bool,
    v: usize,
    positive: bool,
)
    requires
        0 <= i < clauses.len(),
        clauses.len() <= mask.len(),
    ensures
        live(clauses, mask.update(i, bit), v, positive) + (if bit {
            occurrences(side(clauses[i], positive), v)
        } else {
            0nat
        }) == live(clauses, mask, v, positive) + (if mask[i] {
            occurrences(side(clauses[i], positive), v)
        } else {
            0nat
        }),
    decreases clauses.len(),
{
    let shorter = clauses.drop_last();
    let k = clauses.len() - 1;
    if i < k {
        lemma_live_update(shorter, mask, i, bit, v, positive);
    } else {
        lemma_live_frame(shorter, mask, mask.update(i, bit), v, positive);
    }
}

/// The live count depends on the mask bits of the formula's clauses only.
pub proof fn lemma_live_frame(
    clauses: Seq<Literals>,
    mask: Seq<bool>,
    other: Seq<bool>,
    v: usize,
    positive: bool,
)
    requires
        forall|i: int| 0 <= i < clauses.len() ==> mask[i] == other[i],
    ensures
        live(clauses, mask, v, positive) == live(clauses, other, v, positive),
    decreases clauses.len(),
{
    if clauses.len() > 0 {
        lemma_live_frame(clauses.drop_last(), mask, other, v, positive);
    }
}

/// Marking clauses never raises a live count.
pub proof fn lemma_live_bound(clauses: Seq<Literals>, mask: Seq<bool>, v: usize, positive: bool)
    ensures
        live(clauses, mask, v, positive) <= live(clauses, blank(clauses.len()), v, positive),
    decreases clauses.len(),
{
    if clauses.len() > 0 {
        let shorter = clauses.drop_last();
        lemma_live_bound(shorter, mask, v, positive);
        lemma_live_frame(shorter, blank(shorter.len()), blank(clauses.len()), v, positive);
    }
}

/// An occurrence in an unmarked clause is counted.
pub proof fn lemma_live_witness(
    clauses: Seq<Literals>,
    mask: Seq<bool>,
    i: int,
    j: int,
    positive: bool,
)
    requires
        0 <= i < clauses.len(),
        !mask[i],
        0 <= j < side(clauses[i], positive).len(),
    ensures
        live(clauses, mask, side(clauses[i], positive)[j], positive) > 0,
    decreases clauses.len(),
{
    let v = side(clauses[i], positive)[j];
    if i < clauses.len() - 1 {
        lemma_live_witness(clauses.drop_last(), mask, i, j, positive);
    } else {
        lemma_occurrences_none(side(clauses[i], positive), v);
    }
}

/// A variable with no live occurrence is absent from every unmarked clause.
pub proof fn lemma_live_none(
    clauses: Seq<Literals>,
    mask: Seq<bool>,
    v: usize,
    positive: bool,
    i: int,
    j: int,
)
    requires
        live(clauses, mask, v, positive) == 0,
        0 <= i < clauses.len(),
        !mask[i],
        0 <= j < side(clauses[i], positive).len(),
    ensures
        side(clauses[i], positive)[j] != v,
{
    if side(clauses[i], positive)[j] == v {
        lemma_live_witness(clauses, mask, i, j, positive);
    }
}

/// A variable with a live occurrence occurs in some unmarked clause.
pub proof fn lemma_live_some(clauses: Seq<Literals>, mask: Seq<bool>, v: usize, positive: bool)
    requires
        live(clauses, mask, v, positive) > 0,
    ensures
        exists|i: int, j: int|
            0 <= i < clauses.len() && !mask[i] && 0 <= j < side(clauses[i], positive).len()
                && #[trigger] side(clauses[i], positive)[j] == v,
    decreases clauses.len(),
{
    let k = clauses.len() - 1;
    let shorter = clauses.drop_last();
    if live(shorter, mask, v, positive) > 0 {
        lemma_live_some(shorter, mask, v, positive);
        let (i, j) = choose|i: int, j: int|
            0 <= i < shorter.len() && !mask[i] && 0 <= j < side(shorter[i], positive).len()
                && #[trigger] side(shorter[i], positive)[j] == v;
        assert(side(clauses[i], positive)[j] == v);
    } else {
        let bag = side(clauses[k], positive);
        lemma_occurrences_none(bag, v);
        let j = choose|j: int| 0 <= j < bag.len() && #[trigger] bag[j] == v;
        assert(side(clauses[k], positive)[j] == v);
    }
}

/// The number of literals of a formula.
pub open spec fn slots(clauses: Seq<Literals>) -> nat
    decreases clauses.len(),
{
    if clauses.len() == 0 {
        0
    } else {
        slots(clauses.drop_last()) + clauses.last().t.len() + clauses.last().f.len()
    }
}

/// A bag holds a variable at most as often as it has entries.
pub proof fn lemma_occurrences_len(bag: Seq<usize>, v: usize)
    ensures
        occurrences(bag, v) <= bag.len(),
    decreases bag.len(),
{
    if bag.len() > 0 {
        lemma_occurrences_len(bag.drop_last(), v);
    }
}

/// A variable occurs at most as often as the formula has literals.
pub proof fn lemma_live_slots(clauses: Seq<Literals>, mask: Seq<bool>, v: usize)
    ensures
        live(clauses, mask, v, true) + live(clauses, mask, v, false) <= slots(clauses),
    decreases clauses.len(),
{
    if clauses.len() > 0 {
        lemma_live_slots(clauses.drop_last(), mask, v);
        lemma_occurrences_len(clauses.last().t, v);
        lemma_occurrences_len(clauses.last().f, v);
    }
}

/// One more clause adds its literals.
pub proof fn lemma_slots_push(clauses: Seq<Literals>, c: Literals)
    ensures
        slots(clauses.push(c)) == slots(clauses) + c.t.len() + c.f.len(),
{
    assert(clauses.push(c).drop_last() =~= clauses);
}

} // verus!
