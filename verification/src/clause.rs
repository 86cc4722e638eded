//! Clauses: disjunctions of literals, kept as one bag of variables that occur
//! positively and one bag of variables that occur negated.

use crate::varset::VarSet;
use vstd::prelude::*;

verus! {

/// A collection of variable identifiers; a variable may occur more than once.
pub type Bag = Vec<usize>;

/// The disjunction of the variables in `t` and of the negations of the
/// variables in `f`. With both bags empty it is the empty clause, which
/// nothing satisfies.
pub struct Clause {
    pub t: Bag,
    pub f: Bag,
}

/// A clause as a mathematical value: its two bags as sequences.
pub struct Literals {
    pub t: Seq<usize>,
    pub f: Seq<usize>,
}

impl View for Clause {
    type V = Literals;

    open spec fn view(&self) -> Literals {
        Literals { t: self.t@, f: self.f@ }
    }
}

impl Literals {
    /// The clause holds under the partial assignment that makes the members
    /// of `t` true and the members of `f` false: a variable of its positive
    /// bag is true, or one of its negated bag is false.
    pub open spec fn holds(&self, t: Set<usize>, f: Set<usize>) -> bool {
        hits(self.t, t) || hits(self.f, f)
    }

    /// The clause holds under the total assignment that makes exactly the
    /// members of `s` true.
    pub open spec fn holds_complete(&self, s: Set<usize>) -> bool {
        hits(self.t, s) || misses(self.f, s)
    }
}

/// The clauses of a formula as mathematical values.
pub open spec fn literals(clauses: Seq<Clause>) -> Seq<Literals> {
    Seq::new(clauses.len(), |i: int| clauses[i]@)
}

/// Some entry of `bag` is a member of `s`.
pub open spec fn hits(bag: Seq<usize>, s: Set<usize>) -> bool {
    exists|j: int| 0 <= j < bag.len() && s.contains(#[trigger] bag[j])
}

/// Some entry of `bag` is not a member of `s`.
pub open spec fn misses(bag: Seq<usize>, s: Set<usize>) -> bool {
    exists|j: int| 0 <= j < bag.len() && !s.contains(#[trigger] bag[j])
}

/// The entries of `bag` that are not members of `filter`, in their order.
pub open spec fn pending(bag: Seq<usize>, filter: Set<usize>) -> Seq<usize>
    decreases bag.len(),
{
    if bag.len() == 0 {
        Seq::empty()
    } else if filter.contains(bag.last()) {
        pending(bag.drop_last(), filter)
    } else {
        pending(bag.drop_last(), filter).push(bag.last())
    }
}

/// What a bounded probe of `bag` reports: how many entries outside `filter`
/// it met before it stopped at `up_to`, and the last of them (0 if none).
pub open spec fn probe(bag: Seq<usize>, filter: Set<usize>, up_to: u8) -> (u8, usize) {
    let rest = pending(bag, filter);
    if rest.len() == 0 || up_to == 0 {
        (0u8, 0usize)
    } else if rest.len() < up_to {
        (rest.len() as u8, rest.last())
    } else {
        (up_to, rest[up_to - 1])
    }
}

/// The pending entries of a prefix are a prefix of the pending entries.
pub proof fn lemma_pending_prefix(bag: Seq<usize>, filter: Set<usize>, k: int)
    requires
        0 <= k <= bag.len(),
    ensures
        pending(bag.take(k), filter).len() <= pending(bag, filter).len(),
        pending(bag.take(k), filter) == pending(bag, filter).take(
            pending(bag.take(k), filter).len() as int,
        ),
    decreases bag.len(),
{
    if k == bag.len() {
        assert(bag.take(k) =~= bag);
        assert(pending(bag, filter).take(pending(bag, filter).len() as int) =~= pending(
            bag,
            filter,
        ));
    } else {
        let shorter = bag.drop_last();
        lemma_pending_prefix(shorter, filter, k);
        assert(shorter.take(k) =~= bag.take(k));
        let part = pending(bag.take(k), filter);
        assert(part =~= pending(bag, filter).take(part.len() as int));
    }
}

/// Every pending entry comes from the bag and lies outside the filter.
pub proof fn lemma_pending_sound(bag: Seq<usize>, filter: Set<usize>, i: int)
    requires
        0 <= i < pending(bag, filter).len(),
    ensures
        !filter.contains(pending(bag, filter)[i]),
        exists|j: int| 0 <= j < bag.len() && #[trigger] bag[j] == pending(bag, filter)[i],
    decreases bag.len(),
{
    if bag.len() > 0 {
        let shorter = bag.drop_last();
        if i < pending(shorter, filter).len() {
            lemma_pending_sound(shorter, filter, i);
            let j = choose|j: int|
                0 <= j < shorter.len() && #[trigger] shorter[j] == pending(shorter, filter)[i];
            assert(bag[j] == pending(bag, filter)[i]);
        } else {
            assert(bag[bag.len() - 1] == pending(bag, filter)[i]);
        }
    }
}

/// Every entry of the bag outside the filter is among the pending entries.
pub proof fn lemma_pending_complete(bag: Seq<usize>, filter: Set<usize>, j: int)
    requires
        0 <= j < bag.len(),
        !filter.contains(bag[j]),
    ensures
        exists|i: int| 0 <= i < pending(bag, filter).len() && #[trigger] pending(bag, filter)[i] == bag[j],
    decreases bag.len(),
{
    let shorter = bag.drop_last();
    if j < shorter.len() {
        lemma_pending_complete(shorter, filter, j);
        let i = choose|i: int|
            0 <= i < pending(shorter, filter).len() && #[trigger] pending(shorter, filter)[i]
                == shorter[j];
        assert(pending(bag, filter)[i] == bag[j]);
    } else {
        let i = pending(shorter, filter).len() as int;
        assert(pending(bag, filter)[i] == bag[j]);
    }
}

/// Nothing is pending exactly when every entry is filtered out.
pub proof fn lemma_pending_none(bag: Seq<usize>, filter: Set<usize>)
    ensures
        pending(bag, filter).len() == 0 <==> !misses(bag, filter),
{
    if pending(bag, filter).len() > 0 {
        lemma_pending_sound(bag, filter, 0);
    }
    if misses(bag, filter) {
        let j = choose|j: int| 0 <= j < bag.len() && !filter.contains(#[trigger] bag[j]);
        lemma_pending_complete(bag, filter, j);
    }
}

/// With one entry pending, every entry is filtered out or equal to it.
pub proof fn lemma_pending_single(bag: Seq<usize>, filter: Set<usize>)
    requires
        pending(bag, filter).len() == 1,
    ensures
        !filter.contains(pending(bag, filter)[0]),
        exists|j: int| 0 <= j < bag.len() && #[trigger] bag[j] == pending(bag, filter)[0],
        forall|j: int|
            0 <= j < bag.len() ==> filter.contains(#[trigger] bag[j]) || bag[j] == pending(
                bag,
                filter,
            )[0],
{
    lemma_pending_sound(bag, filter, 0);
    assert forall|j: int| 0 <= j < bag.len() implies filter.contains(#[trigger] bag[j]) || bag[j]
        == pending(bag, filter)[0] by {
        if !filter.contains(bag[j]) {
            lemma_pending_complete(bag, filter, j);
        }
    }
}

/// Whether some entry of `bag` is a member of `s`.
fn any_member(bag: &Bag, s: &VarSet) -> (found: bool)
    ensures
        found == hits(bag@, s@),
{
    let mut j: usize = 0;
    while j < bag.len()
        invariant
            j <= bag.len(),
            forall|k: int| 0 <= k < j ==> !s@.contains(#[trigger] bag@[k]),
        decreases bag.len() - j,
    {
        if s.contains(bag[j]) {
            return true;
        }
        j += 1;
    }
    false
}

/// Whether some entry of `bag` is not a member of `s`.
fn any_absent(bag: &Bag, s: &VarSet) -> (found: bool)
    ensures
        found == misses(bag@, s@),
{
    let mut j: usize = 0;
    while j < bag.len()
        invariant
            j <= bag.len(),
            forall|k: int| 0 <= k < j ==> s@.contains(#[trigger] bag@[k]),
        decreases bag.len() - j,
    {
        if !s.contains(bag[j]) {
            return true;
        }
        j += 1;
    }
    false
}

impl Clause {
    /// Whether the clause holds under the partial assignment `(t, f)`.
    /// A variable in neither set satisfies nothing.
    pub fn eval(&self, t: &VarSet, f: &VarSet) -> (b: bool)
        ensures
            b == self@.holds(t@, f@),
    {
        any_member(&self.t, t) || any_member(&self.f, f)
    }

    /// Whether the clause holds under the total assignment in which the
    /// members of `t` are true and every other variable is false.
    pub fn eval_complete(&self, t: &VarSet) -> (b: bool)
        ensures
            b == self@.holds_complete(t@),
    {
        any_member(&self.t, t) || any_absent(&self.f, t)
    }

    /// Scans `bag` for entries outside `filter` and stops once `up_to` of
    /// them were met. Returns how many were met and the last one met, or 0
    /// where none was.
    pub fn find_unit(bag: &Bag, filter: &VarSet, up_to: u8) -> (r: (u8, usize))
        ensures
            r == probe(bag@, filter@, up_to),
    {
        let mut count: u8 = 0;
        let mut var: usize = 0;
        if up_to == 0 {
            return (count, var);
        }
        let mut j: usize = 0;
        while j < bag.len()
            invariant
                j <= bag.len(),
                0 < up_to,
                count < up_to,
                count == pending(bag@.take(j as int), filter@).len(),
                count == 0 ==> var == 0,
                count > 0 ==> var == pending(bag@.take(j as int), filter@).last(),
            decreases bag.len() - j,
        {
            let v = bag[j];
            proof {
                assert(bag@.take(j + 1).drop_last() =~= bag@.take(j as int));
                assert(bag@.take(j + 1).last() == v);
            }
            if !filter.contains(v) {
                count += 1;
                var = v;
                if count == up_to {
                    proof {
                        lemma_pending_prefix(bag@, filter@, j + 1);
                        let part = pending(bag@.take(j + 1), filter@);
                        assert(part.last() == var);
                        assert(part[count - 1] == pending(bag@, filter@)[count - 1]);
                    }
                    return (count, var);
                }
            }
            j += 1;
        }
        proof {
            assert(bag@.take(j as int) =~= bag@);
        }
        (count, var)
    }
}

} // verus!
