//! The state of the search as a mathematical value: which clauses are
//! marked, in what order they were marked, and the partial assignment.

use crate::clause::Literals;
use vstd::prelude::*;

verus! {

/// The satisfied-mask, the order in which clauses were marked, and the
/// variables made true and made false.
pub struct Trail {
    pub mask: Seq<bool>,
    pub history: Seq<usize>,
    pub t: Set<usize>,
    pub f: Set<usize>,
}

/// The trail after clause `i` was marked.
pub open spec fn mark(st: Trail, i: usize) -> Trail {
    Trail { mask: st.mask.update(i as int, true), history: st.history.push(i), ..st }
}

/// The history lists, without repetition, exactly the clauses whose mask
/// bit is set.
pub open spec fn recorded(mask: Seq<bool>, history: Seq<usize>) -> bool {
    &&& mask.len() <= usize::MAX
    &&& history.no_duplicates()
    &&& forall|k: int| 0 <= k < history.len() ==> #[trigger] history[k] < mask.len()
    &&& forall|i: usize| i < mask.len() ==> (#[trigger] mask[i as int] <==> history.contains(i))
}

/// Every marked clause holds under the partial assignment.
pub open spec fn tracks(clauses: Seq<Literals>, st: Trail) -> bool {
    forall|i: int| 0 <= i < clauses.len() && #[trigger] st.mask[i] ==> clauses[i].holds(st.t, st.f)
}

/// The trail fits the formula: the bookkeeping is consistent, marked
/// clauses hold, and no variable is both true and false.
pub open spec fn aligned(clauses: Seq<Literals>, st: Trail) -> bool {
    &&& st.mask.len() == clauses.len()
    &&& recorded(st.mask, st.history)
    &&& tracks(clauses, st)
    &&& st.t.disjoint(st.f)
}

/// The total assignment that makes exactly the members of `m` true
/// satisfies every clause.
pub open spec fn is_model(clauses: Seq<Literals>, m: Set<usize>) -> bool {
    forall|i: int| 0 <= i < clauses.len() ==> (#[trigger] clauses[i]).holds_complete(m)
}

/// The total assignment `m` makes the members of `t` true and the members
/// of `f` false.
pub open spec fn agrees(m: Set<usize>, t: Set<usize>, f: Set<usize>) -> bool {
    t.subset_of(m) && m.disjoint(f)
}

/// Some total assignment that agrees with `(t, f)` satisfies every clause.
pub open spec fn satisfiable_under(clauses: Seq<Literals>, t: Set<usize>, f: Set<usize>) -> bool {
    exists|m: Set<usize>| is_model(clauses, m) && #[trigger] agrees(m, t, f)
}

/// The number of mask bits that are set.
pub open spec fn marked(mask: Seq<bool>) -> nat
    decreases mask.len(),
{
    if mask.len() == 0 {
        0
    } else {
        marked(mask.drop_last()) + if mask.last() {
            1nat
        } else {
            0nat
        }
    }
}

/// The number of variables in `1..=n` that are in neither set.
pub open spec fn free(n: usize, t: Set<usize>, f: Set<usize>) -> nat
    decreases n,
{
    if n == 0 {
        0
    } else {
        free((n - 1) as usize, t, f) + if t.contains(n) || f.contains(n) {
            0nat
        } else {
            1nat
        }
    }
}

/// Some clause holds under the assignment and is not marked yet.
pub open spec fn lagging(clauses: Seq<Literals>, st: Trail) -> bool {
    exists|i: int| 0 <= i < clauses.len() && !#[trigger] st.mask[i] && clauses[i].holds(st.t, st.f)
}

/// No more bits are set than there are; all are set, or none, exactly
/// when the count says so.
pub proof fn lemma_marked_bound(mask: Seq<bool>)
    ensures
        marked(mask) <= mask.len(),
        marked(mask) == mask.len() <==> forall|i: int| 0 <= i < mask.len() ==> #[trigger] mask[i],
        marked(mask) == 0 <==> forall|i: int| 0 <= i < mask.len() ==> !#[trigger] mask[i],
    decreases mask.len(),
{
    if mask.len() > 0 {
        let shorter = mask.drop_last();
        lemma_marked_bound(shorter);
        if forall|i: int| 0 <= i < mask.len() ==> #[trigger] mask[i] {
            assert forall|i: int| 0 <= i < shorter.len() implies #[trigger] shorter[i] by {
                assert(mask[i]);
            }
        }
        if forall|i: int| 0 <= i < mask.len() ==> !#[trigger] mask[i] {
            assert forall|i: int| 0 <= i < shorter.len() implies !#[trigger] shorter[i] by {
                assert(!mask[i]);
            }
        }
        if marked(mask) == mask.len() {
            assert forall|i: int| 0 <= i < mask.len() implies #[trigger] mask[i] by {
                if i < shorter.len() {
                    assert(shorter[i]);
                }
            }
        }
        if marked(mask) == 0 {
            assert forall|i: int| 0 <= i < mask.len() implies !#[trigger] mask[i] by {
                if i < shorter.len() {
                    assert(!shorter[i]);
                }
            }
        }
    }
}

/// Writing one bit changes the count by what that bit changes.
pub proof fn lemma_marked_update(mask: Seq<bool>, i: int, bit: bool)
    requires
        0 <= i < mask.len(),
    ensures
        marked(mask.update(i, bit)) + (if mask[i] {
            1nat
        } else {
            0nat
        }) == marked(mask) + (if bit {
            1nat
        } else {
            0nat
        }),
    decreases mask.len(),
{
    let shorter = mask.drop_last();
    if i < mask.len() - 1 {
        lemma_marked_update(shorter, i, bit);
        assert(mask.update(i, bit).drop_last() =~= shorter.update(i, bit));
    } else {
        assert(mask.update(i, bit).drop_last() =~= shorter);
    }
}

/// The history is as long as the number of marked clauses.
pub proof fn lemma_recorded_len(mask: Seq<bool>, history: Seq<usize>)
    requires
        recorded(mask, history),
    ensures
        history.len() == marked(mask),
        history.len() <= mask.len(),
    decreases history.len(),
{
    lemma_marked_bound(mask);
    if history.len() == 0 {
        assert forall|i: int| 0 <= i < mask.len() implies !#[trigger] mask[i] by {
            if mask[i] {
                let u = i as usize;
                assert(mask[u as int]);
                assert(history.contains(u));
            }
        }
    } else {
        let h = history.last();
        let rest = history.drop_last();
        let cleared = mask.update(h as int, false);
        assert(history[history.len() - 1] == h);
        assert(mask[h as int]) by {
            assert(history.contains(h));
        }
        assert(recorded(cleared, rest)) by {
            assert forall|i: usize| i < cleared.len() implies (#[trigger] cleared[i as int]
                <==> rest.contains(i)) by {
                if i == h {
                    if rest.contains(h) {
                        let k = choose|k: int| 0 <= k < rest.len() && rest[k] == h;
                        assert(history[k] == history[history.len() - 1]);
                    }
                } else {
                    assert(cleared[i as int] == mask[i as int]);
                    if mask[i as int] {
                        let k = choose|k: int| 0 <= k < history.len() && history[k] == i;
                        assert(rest[k] == i);
                    }
                    if rest.contains(i) {
                        let k = choose|k: int| 0 <= k < rest.len() && rest[k] == i;
                        assert(history[k] == i);
                    }
                }
            }
            assert forall|k: int| 0 <= k < rest.len() implies #[trigger] rest[k] < cleared.len() by {
                assert(history[k] < mask.len());
            }
        }
        lemma_recorded_len(cleared, rest);
        lemma_marked_update(mask, h as int, false);
    }
}

/// Marking an unmarked clause keeps the bookkeeping consistent.
pub proof fn lemma_recorded_mark(mask: Seq<bool>, history: Seq<usize>, i: usize)
    requires
        recorded(mask, history),
        i < mask.len(),
        !mask[i as int],
    ensures
        recorded(mask.update(i as int, true), history.push(i)),
        history.len() < mask.len(),
{
    let mask2 = mask.update(i as int, true);
    let history2 = history.push(i);
    assert(!history.contains(i));
    assert forall|a: int, b: int|
        0 <= a < history2.len() && 0 <= b < history2.len() && a != b implies history2[a]
        != history2[b] by {
        if a < history.len() {
            assert(history.contains(history[a]));
        }
        if b < history.len() {
            assert(history.contains(history[b]));
        }
    }
    assert forall|k: usize| k < mask2.len() implies (#[trigger] mask2[k as int]
        <==> history2.contains(k)) by {
        if k == i {
            assert(history2[history.len() as int] == i);
        } else {
            if mask[k as int] {
                let p = choose|p: int| 0 <= p < history.len() && history[p] == k;
                assert(history2[p] == k);
            }
            if history2.contains(k) {
                let p = choose|p: int| 0 <= p < history2.len() && history2[p] == k;
                assert(history[p] == k);
            }
        }
    }
    lemma_recorded_len(mask2, history2);
}

/// A larger assignment leaves no more variables free.
pub proof fn lemma_free_mono(
    n: usize,
    t: Set<usize>,
    f: Set<usize>,
    t2: Set<usize>,
    f2: Set<usize>,
)
    requires
        t.subset_of(t2),
        f.subset_of(f2),
    ensures
        free(n, t2, f2) <= free(n, t, f),
    decreases n,
{
    if n > 0 {
        lemma_free_mono((n - 1) as usize, t, f, t2, f2);
    }
}

/// An assignment that newly covers a variable of `1..=n` leaves fewer free.
pub proof fn lemma_free_strict(
    n: usize,
    t: Set<usize>,
    f: Set<usize>,
    t2: Set<usize>,
    f2: Set<usize>,
    v: usize,
)
    requires
        t.subset_of(t2),
        f.subset_of(f2),
        1 <= v <= n,
        !t.contains(v),
        !f.contains(v),
        t2.contains(v) || f2.contains(v),
    ensures
        free(n, t2, f2) < free(n, t, f),
    decreases n,
{
    if v < n {
        lemma_free_strict((n - 1) as usize, t, f, t2, f2, v);
    } else {
        lemma_free_mono((n - 1) as usize, t, f, t2, f2);
    }
}

/// A clause that holds under an assignment holds under a larger one.
pub proof fn lemma_holds_mono(
    c: Literals,
    t: Set<usize>,
    f: Set<usize>,
    t2: Set<usize>,
    f2: Set<usize>,
)
    requires
        t.subset_of(t2),
        f.subset_of(f2),
        c.holds(t, f),
    ensures
        c.holds(t2, f2),
{
    if crate::clause::hits(c.t, t) {
        let j = choose|j: int| 0 <= j < c.t.len() && t.contains(#[trigger] c.t[j]);
        assert(t2.contains(c.t[j]));
    } else {
        let j = choose|j: int| 0 <= j < c.f.len() && f.contains(#[trigger] c.f[j]);
        assert(f2.contains(c.f[j]));
    }
}

/// A clause that holds under a partial assignment holds under every total
/// assignment that agrees with it.
pub proof fn lemma_holds_complete(c: Literals, t: Set<usize>, f: Set<usize>, m: Set<usize>)
    requires
        c.holds(t, f),
        agrees(m, t, f),
    ensures
        c.holds_complete(m),
{
    if crate::clause::hits(c.t, t) {
        let j = choose|j: int| 0 <= j < c.t.len() && t.contains(#[trigger] c.t[j]);
        assert(m.contains(c.t[j]));
    } else {
        let j = choose|j: int| 0 <= j < c.f.len() && f.contains(#[trigger] c.f[j]);
        assert(!m.contains(c.f[j]));
    }
}

} // verus!
