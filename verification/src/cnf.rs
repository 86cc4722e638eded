//! The formula store: the clauses, and the bookkeeping that the search
//! keeps about them while it runs.

use crate::clause::Bag;
use crate::clause::Clause;
use crate::clause::Literals;
use crate::clause::lemma_pending_sound;
use crate::clause::literals;
use crate::clause::pending;
use crate::dimacs::body_text;
use crate::dimacs::formula_text;
use crate::dimacs::header_text;
use crate::dimacs::push_bag;
use crate::dimacs::push_decimal;
use crate::dimacs::solution_text;
use crate::occurrence::blank;
use crate::occurrence::in_range;
use crate::occurrence::lemma_live_bound;
use crate::occurrence::lemma_live_prefix;
use crate::occurrence::lemma_live_step;
use crate::occurrence::lemma_live_update;
use crate::occurrence::lemma_occurrences_prefix;
use crate::occurrence::lemma_occurrences_step;
use crate::occurrence::live;
use crate::occurrence::occurrences;
use crate::occurrence::side;
use crate::rules::grows;
use crate::rules::lemma_unit_pass;
use crate::rules::lemma_unit_step;
use crate::rules::pure_sweep;
use crate::rules::unit_pass;
use crate::search::Settled;
use crate::search::best;
use crate::search::branch;
use crate::search::chosen;
use crate::search::lemma_best_chosen;
use crate::search::lemma_branch;
use crate::search::lemma_marked_model;
use crate::search::lemma_round;
use crate::search::lemma_search;
use crate::search::lemma_settle;
use crate::search::potential;
use crate::search::search;
use crate::search::settle;
use crate::search::slack;
use crate::search::weight;
use crate::trail::Trail;
use crate::trail::agrees;
use crate::trail::aligned;
use crate::trail::free;
use crate::trail::is_model;
use crate::trail::lemma_marked_bound;
use crate::trail::lemma_recorded_len;
use crate::trail::lemma_recorded_mark;
use crate::trail::recorded;
use crate::trail::satisfiable_under;
use crate::trail::tracks;
use crate::varset::VarSet;
use std::ops::Range;
use vstd::prelude::*;

verus! {

/// A formula in conjunctive normal form over the variables `1..=n`, with
/// the satisfied-mask, the marking history and the live occurrence counts.
pub struct CNF {
    formula: Vec<Clause>,
    n: usize,
    mask: Vec<bool>,
    history: Vec<usize>,
    count_t: Vec<usize>,
    count_f: Vec<usize>,
}

/// Adds one to the counter of every entry of `bag`.
fn count_up(bag: &Bag, counts: &mut Vec<usize>)
    requires
        forall|j: int| 0 <= j < bag@.len() ==> #[trigger] bag@[j] < old(counts)@.len(),
        forall|v: usize|
            v < old(counts)@.len() ==> #[trigger] old(counts)@[v as int] + occurrences(bag@, v)
                <= usize::MAX,
    ensures
        final(counts)@.len() == old(counts)@.len(),
        forall|v: usize|
            v < old(counts)@.len() ==> #[trigger] final(counts)@[v as int] == old(counts)@[v as int]
                + occurrences(bag@, v),
{
    let mut j: usize = 0;
    while j < bag.len()
        invariant
            j <= bag@.len(),
            counts@.len() == old(counts)@.len(),
            forall|k: int| 0 <= k < bag@.len() ==> #[trigger] bag@[k] < counts@.len(),
            forall|v: usize|
                v < counts@.len() ==> #[trigger] old(counts)@[v as int] + occurrences(bag@, v)
                    <= usize::MAX,
            forall|v: usize|
                v < counts@.len() ==> #[trigger] counts@[v as int] == old(counts)@[v as int]
                    + occurrences(bag@.take(j as int), v),
        decreases bag@.len() - j,
    {
        let v = bag[j];
        proof {
            assert forall|w: usize| w < counts@.len() implies occurrences(bag@.take(j + 1), w)
                == occurrences(bag@.take(j as int), w) + if w == v {
                1nat
            } else {
                0nat
            } && occurrences(bag@.take(j + 1), w) <= occurrences(bag@, w) by {
                lemma_occurrences_step(bag@, j as int, w);
                lemma_occurrences_prefix(bag@, j + 1, w);
            }
            assert(old(counts)@[v as int] + occurrences(bag@, v) <= usize::MAX);
        }
        let c = counts[v];
        counts[v] = c + 1;
        j += 1;
    }
    proof {
        assert(bag@.take(j as int) =~= bag@);
    }
}

/// Takes one from the counter of every entry of `bag`.
fn count_down(bag: &Bag, counts: &mut Vec<usize>)
    requires
        forall|j: int| 0 <= j < bag@.len() ==> #[trigger] bag@[j] < old(counts)@.len(),
        forall|v: usize|
            v < old(counts)@.len() ==> #[trigger] old(counts)@[v as int] >= occurrences(bag@, v),
    ensures
        final(counts)@.len() == old(counts)@.len(),
        forall|v: usize|
            v < old(counts)@.len() ==> #[trigger] final(counts)@[v as int] == old(counts)@[v as int]
                - occurrences(bag@, v),
{
    let mut j: usize = 0;
    while j < bag.len()
        invariant
            j <= bag@.len(),
            counts@.len() == old(counts)@.len(),
            forall|k: int| 0 <= k < bag@.len() ==> #[trigger] bag@[k] < counts@.len(),
            forall|v: usize|
                v < counts@.len() ==> #[trigger] old(counts)@[v as int] >= occurrences(bag@, v),
            forall|v: usize|
                v < counts@.len() ==> #[trigger] counts@[v as int] == old(counts)@[v as int]
                    - occurrences(bag@.take(j as int), v),
        decreases bag@.len() - j,
    {
        let v = bag[j];
        proof {
            assert forall|w: usize| w < counts@.len() implies occurrences(bag@.take(j + 1), w)
                == occurrences(bag@.take(j as int), w) + if w == v {
                1nat
            } else {
                0nat
            } && occurrences(bag@.take(j + 1), w) <= occurrences(bag@, w) by {
                lemma_occurrences_step(bag@, j as int, w);
                lemma_occurrences_prefix(bag@, j + 1, w);
            }
            assert(old(counts)@[v as int] >= occurrences(bag@, v));
        }
        let c = counts[v];
        counts[v] = c - 1;
        j += 1;
    }
    proof {
        assert(bag@.take(j as int) =~= bag@);
    }
}

/// Adds one to the counter of every entry of `bag`, as long as every
/// entry lies in `1..counts.len()` and no counter runs over; tells
/// whether it got through.
fn count_checked(bag: &Bag, counts: &mut Vec<usize>) -> (ok: bool)
    ensures
        final(counts)@.len() == old(counts)@.len(),
        ok ==> {
            &&& forall|j: int|
                0 <= j < bag@.len() ==> 1 <= #[trigger] bag@[j] < old(counts)@.len()
            &&& forall|v: usize|
                v < old(counts)@.len() ==> #[trigger] final(counts)@[v as int] == old(
                    counts,
                )@[v as int] + occurrences(bag@, v)
        },
        !ok ==> {
            ||| exists|j: int|
                0 <= j < bag@.len() && !(1 <= #[trigger] bag@[j] < old(counts)@.len())
            ||| exists|v: usize|
                v < old(counts)@.len() && #[trigger] old(counts)@[v as int] + occurrences(bag@, v)
                    > usize::MAX
        },
{
    let mut j: usize = 0;
    while j < bag.len()
        invariant
            j <= bag@.len(),
            counts@.len() == old(counts)@.len(),
            forall|k: int| 0 <= k < j ==> 1 <= #[trigger] bag@[k] < counts@.len(),
            forall|v: usize|
                v < counts@.len() ==> #[trigger] counts@[v as int] == old(counts)@[v as int]
                    + occurrences(bag@.take(j as int), v),
        decreases bag@.len() - j,
    {
        let v = bag[j];
        if v == 0 || v >= counts.len() {
            return false;
        }
        proof {
            assert forall|w: usize| w < counts@.len() implies occurrences(bag@.take(j + 1), w)
                == occurrences(bag@.take(j as int), w) + if w == v {
                1nat
            } else {
                0nat
            } && occurrences(bag@.take(j + 1), w) <= occurrences(bag@, w) by {
                lemma_occurrences_step(bag@, j as int, w);
                lemma_occurrences_prefix(bag@, j + 1, w);
            }
        }
        let c = counts[v];
        if c == usize::MAX {
            proof {
                lemma_occurrences_step(bag@, j as int, v);
                lemma_occurrences_prefix(bag@, j + 1, v);
                assert(old(counts)@[v as int] + occurrences(bag@, v) > usize::MAX);
            }
            return false;
        }
        let ghost before = counts@;
        counts[v] = c + 1;
        proof {
            assert forall|w: usize| w < counts@.len() implies #[trigger] counts@[w as int] == old(
                counts,
            )@[w as int] + occurrences(bag@.take(j + 1), w) by {
                lemma_occurrences_step(bag@, j as int, w);
                assert(before[w as int] == old(counts)@[w as int] + occurrences(
                    bag@.take(j as int),
                    w,
                ));
            }
        }
        j += 1;
    }
    proof {
        assert(bag@.take(j as int) =~= bag@);
    }
    true
}

impl CNF {
    /// The clauses, in their order.
    pub closed spec fn clauses(&self) -> Seq<Literals> {
        literals(self.formula@)
    }

    /// The declared number of variables.
    pub closed spec fn declared(&self) -> usize {
        self.n
    }

    /// For each clause, whether it is marked as satisfied.
    pub closed spec fn mask(&self) -> Seq<bool> {
        self.mask@
    }

    /// The marked clauses, in the order in which they were marked.
    pub closed spec fn history(&self) -> Seq<usize> {
        self.history@
    }

    /// For each variable, its positive occurrences in unmarked clauses.
    pub closed spec fn count_t(&self) -> Seq<usize> {
        self.count_t@
    }

    /// For each variable, its negated occurrences in unmarked clauses.
    pub closed spec fn count_f(&self) -> Seq<usize> {
        self.count_f@
    }

    /// The search state made of this store's bookkeeping and an assignment.
    pub open spec fn trail(&self, t: Set<usize>, f: Set<usize>) -> Trail {
        Trail { mask: self.mask(), history: self.history(), t, f }
    }

    /// What a store can be built from: every variable lies in `1..=n`, and
    /// the occurrences of each variable can be counted in a `usize`.
    pub open spec fn admits(clauses: Seq<Literals>, n: usize) -> bool {
        &&& n < usize::MAX
        &&& in_range(clauses, n)
        &&& forall|v: usize|
            v <= n ==> #[trigger] live(clauses, blank(clauses.len()), v, true) + live(
                clauses,
                blank(clauses.len()),
                v,
                false,
            ) <= usize::MAX
    }

    /// The store's invariant: the mask and the history describe the same
    /// marked clauses, and each counter holds the number of occurrences of
    /// its variable in the unmarked clauses.
    pub open spec fn wf(&self) -> bool {
        &&& Self::admits(self.clauses(), self.declared())
        &&& self.mask().len() == self.clauses().len()
        &&& recorded(self.mask(), self.history())
        &&& self.count_t().len() == self.declared() + 1
        &&& self.count_f().len() == self.declared() + 1
        &&& forall|v: usize|
            v <= self.declared() ==> #[trigger] self.count_t()[v as int] == live(
                self.clauses(),
                self.mask(),
                v,
                true,
            )
        &&& forall|v: usize|
            v <= self.declared() ==> #[trigger] self.count_f()[v as int] == live(
                self.clauses(),
                self.mask(),
                v,
                false,
            )
    }

    /// What the search answers when it is asked for an assignment that
    /// makes the members of `t` true and the members of `f` false: the
    /// variables that the assignment found makes true, or `None`.
    pub open spec fn answer(&self, t: Set<usize>, f: Set<usize>) -> Option<Set<usize>> {
        match self.found(t, f) {
            Some(a) => Some(a.t),
            None => None,
        }
    }

    /// The trail that the search ends with, from this store's bookkeeping
    /// and the given assignment; `None` where it finds no assignment.
    pub open spec fn found(&self, t: Set<usize>, f: Set<usize>) -> Option<Trail> {
        search(self.clauses(), self.declared(), self.trail(t, f))
    }

    /// The total assignment that makes exactly the members of `m` true
    /// satisfies every clause of the formula.
    pub open spec fn valid(&self, m: Set<usize>) -> bool {
        is_model(self.clauses(), m)
    }

    /// Whether a store can be built from the formula and `n`.
    pub fn admissible(formula: &Vec<Clause>, n: usize) -> (b: bool)
        ensures
            b == Self::admits(literals(formula@), n),
    {
        if n == usize::MAX {
            return false;
        }
        let len = formula.len();
        let mut count_t = vec![0usize; n + 1];
        let mut count_f = vec![0usize; n + 1];
        let ghost none = blank(len as nat);
        let ghost cls = literals(formula@);
        let mut i: usize = 0;
        while i < len
            invariant
                i <= len,
                len == formula@.len(),
                none == blank(len as nat),
                cls == literals(formula@),
                n < usize::MAX,
                count_t@.len() == n + 1,
                count_f@.len() == n + 1,
                in_range(cls.take(i as int), n),
                forall|v: usize|
                    v <= n ==> #[trigger] count_t@[v as int] == live(
                        cls.take(i as int),
                        none,
                        v,
                        true,
                    ),
                forall|v: usize|
                    v <= n ==> #[trigger] count_f@[v as int] == live(
                        cls.take(i as int),
                        none,
                        v,
                        false,
                    ),
            decreases len - i,
        {
            let clause = &formula[i];
            let ghost before_t = count_t@;
            let ghost before_f = count_f@;
            proof {
                assert(side(cls[i as int], true) == clause.t@);
                assert(side(cls[i as int], false) == clause.f@);
                assert forall|v: usize, positive: bool| v <= n implies live(
                    cls.take(i + 1),
                    none,
                    v,
                    positive,
                ) == live(cls.take(i as int), none, v, positive) + occurrences(
                    side(cls[i as int], positive),
                    v,
                ) && live(cls.take(i + 1), none, v, positive) <= #[trigger] live(
                    cls,
                    none,
                    v,
                    positive,
                ) by {
                    lemma_live_step(cls, none, i as int, v, positive);
                    lemma_live_prefix(cls, none, i + 1, v, positive);
                }
            }
            let ok_t = count_checked(&clause.t, &mut count_t);
            if !ok_t {
                proof {
                    if exists|j: int|
                        0 <= j < clause.t@.len() && !(1 <= #[trigger] clause.t@[j]
                            < before_t.len()) {
                        let j = choose|j: int|
                            0 <= j < clause.t@.len() && !(1 <= #[trigger] clause.t@[j]
                                < before_t.len());
                        assert(!(1 <= side(cls[i as int], true)[j] <= n));
                    } else {
                        let v = choose|v: usize|
                            v < before_t.len() && #[trigger] before_t[v as int] + occurrences(
                                clause.t@,
                                v,
                            ) > usize::MAX;
                        lemma_live_step(cls, none, i as int, v, true);
                        lemma_live_prefix(cls, none, i + 1, v, true);
                        assert(before_t[v as int] == live(cls.take(i as int), none, v, true));
                        assert(live(cls, none, v, true) + live(cls, none, v, false)
                            > usize::MAX);
                    }
                }
                return false;
            }
            let ok_f = count_checked(&clause.f, &mut count_f);
            if !ok_f {
                proof {
                    if exists|j: int|
                        0 <= j < clause.f@.len() && !(1 <= #[trigger] clause.f@[j]
                            < before_f.len()) {
                        let j = choose|j: int|
                            0 <= j < clause.f@.len() && !(1 <= #[trigger] clause.f@[j]
                                < before_f.len());
                        assert(!(1 <= side(cls[i as int], false)[j] <= n));
                    } else {
                        let v = choose|v: usize|
                            v < before_f.len() && #[trigger] before_f[v as int] + occurrences(
                                clause.f@,
                                v,
                            ) > usize::MAX;
                        lemma_live_step(cls, none, i as int, v, false);
                        lemma_live_prefix(cls, none, i + 1, v, false);
                        assert(before_f[v as int] == live(cls.take(i as int), none, v, false));
                        assert(live(cls, none, v, true) + live(cls, none, v, false)
                            > usize::MAX);
                    }
                }
                return false;
            }
            proof {
                let longer = cls.take(i + 1);
                assert forall|a: int, b: int, positive: bool|
                    0 <= a < longer.len() && 0 <= b < side(longer[a], positive).len() implies 1
                    <= (#[trigger] side(longer[a], positive)[b]) <= n by {
                    if a < i {
                        assert(side(cls.take(i as int)[a], positive)[b] <= n);
                    } else if positive {
                        assert(1 <= clause.t@[b] < before_t.len());
                    } else {
                        assert(1 <= clause.f@[b] < before_f.len());
                    }
                }
                assert forall|v: usize| v <= n implies #[trigger] count_t@[v as int] == live(
                    cls.take(i + 1),
                    none,
                    v,
                    true,
                ) by {
                    lemma_live_step(cls, none, i as int, v, true);
                    assert(before_t[v as int] == live(cls.take(i as int), none, v, true));
                }
                assert forall|v: usize| v <= n implies #[trigger] count_f@[v as int] == live(
                    cls.take(i + 1),
                    none,
                    v,
                    false,
                ) by {
                    lemma_live_step(cls, none, i as int, v, false);
                    assert(before_f[v as int] == live(cls.take(i as int), none, v, false));
                }
            }
            i += 1;
        }
        proof {
            assert(cls.take(len as int) =~= cls);
        }
        let mut v: usize = 0;
        while v <= n
            invariant
                v <= n + 1,
                n < usize::MAX,
                count_t@.len() == n + 1,
                count_f@.len() == n + 1,
                none == blank(formula@.len()),
                cls == literals(formula@),
                forall|w: usize|
                    w <= n ==> #[trigger] count_t@[w as int] == live(cls, none, w, true),
                forall|w: usize|
                    w <= n ==> #[trigger] count_f@[w as int] == live(cls, none, w, false),
                forall|w: usize|
                    w < v ==> #[trigger] live(cls, none, w, true) + live(
                        cls,
                        none,
                        w,
                        false,
                    ) <= usize::MAX,
            decreases n + 1 - v,
        {
            proof {
                assert(count_t@[v as int] == live(cls, none, v, true));
                assert(count_f@[v as int] == live(cls, none, v, false));
            }
            if count_t[v] > usize::MAX - count_f[v] {
                return false;
            }
            v += 1;
        }
        true
    }

    /// Builds the store of a formula over the variables `1..=n`: no clause
    /// is marked, and the counters hold the occurrences in all clauses.
    pub fn new(formula: Vec<Clause>, n: usize) -> (cnf: CNF)
        requires
            Self::admits(literals(formula@), n),
        ensures
            cnf.wf(),
            cnf.clauses() == literals(formula@),
            cnf.declared() == n,
            cnf.mask() == blank(formula@.len()),
            cnf.history() == Seq::<usize>::empty(),
    {
        let len = formula.len();
        let mut count_t = vec![0usize; n + 1];
        let mut count_f = vec![0usize; n + 1];
        let ghost none = blank(len as nat);
        let ghost cls = literals(formula@);
        let mut i: usize = 0;
        while i < len
            invariant
                i <= len,
                len == formula@.len(),
                none == blank(len as nat),
                cls == literals(formula@),
                Self::admits(cls, n),
                count_t@.len() == n + 1,
                count_f@.len() == n + 1,
                forall|v: usize|
                    v <= n ==> #[trigger] count_t@[v as int] == live(
                        cls.take(i as int),
                        none,
                        v,
                        true,
                    ),
                forall|v: usize|
                    v <= n ==> #[trigger] count_f@[v as int] == live(
                        cls.take(i as int),
                        none,
                        v,
                        false,
                    ),
            decreases len - i,
        {
            let clause = &formula[i];
            proof {
                assert forall|v: usize, positive: bool| v <= n implies live(
                    cls.take(i + 1),
                    none,
                    v,
                    positive,
                ) == live(cls.take(i as int), none, v, positive) + occurrences(
                    side(cls[i as int], positive),
                    v,
                ) && live(cls.take(i + 1), none, v, positive) <= live(
                    cls,
                    none,
                    v,
                    positive,
                ) by {
                    lemma_live_step(cls, none, i as int, v, positive);
                    lemma_live_prefix(cls, none, i + 1, v, positive);
                }
                assert forall|v: usize| v < count_t@.len() implies #[trigger] count_t@[v as int]
                    + occurrences(clause.t@, v) <= usize::MAX by {
                    assert(live(cls, none, v, true) + live(cls, none, v, false)
                        <= usize::MAX);
                    assert(side(cls[i as int], true) == clause.t@);
                }
                assert forall|v: usize| v < count_f@.len() implies #[trigger] count_f@[v as int]
                    + occurrences(clause.f@, v) <= usize::MAX by {
                    assert(live(cls, none, v, true) + live(cls, none, v, false)
                        <= usize::MAX);
                    assert(side(cls[i as int], false) == clause.f@);
                }
                assert forall|j: int| 0 <= j < clause.t@.len() implies #[trigger] clause.t@[j]
                    < count_t@.len() by {
                    assert(side(cls[i as int], true)[j] <= n);
                }
                assert forall|j: int| 0 <= j < clause.f@.len() implies #[trigger] clause.f@[j]
                    < count_f@.len() by {
                    assert(side(cls[i as int], false)[j] <= n);
                }
            }
            let ghost before_t = count_t@;
            let ghost before_f = count_f@;
            count_up(&clause.t, &mut count_t);
            count_up(&clause.f, &mut count_f);
            proof {
                assert(side(cls[i as int], true) == clause.t@);
                assert(side(cls[i as int], false) == clause.f@);
                assert forall|v: usize| v <= n implies #[trigger] count_t@[v as int] == live(
                    cls.take(i + 1),
                    none,
                    v,
                    true,
                ) by {
                    lemma_live_step(cls, none, i as int, v, true);
                    assert(before_t[v as int] == live(cls.take(i as int), none, v, true));
                }
                assert forall|v: usize| v <= n implies #[trigger] count_f@[v as int] == live(
                    cls.take(i + 1),
                    none,
                    v,
                    false,
                ) by {
                    lemma_live_step(cls, none, i as int, v, false);
                    assert(before_f[v as int] == live(cls.take(i as int), none, v, false));
                }
            }
            i += 1;
        }
        let mask = vec![false; len];
        let history: Vec<usize> = Vec::with_capacity(len);
        proof {
            assert(cls.take(len as int) =~= cls);
            assert(mask@ =~= none);
            assert(history@ =~= Seq::<usize>::empty());
        }
        CNF { formula, n, mask, history, count_t, count_f }
    }

    /// Whether every clause is marked: the history then lists them all.
    fn all_satisfied(&self) -> (b: bool)
        requires
            self.wf(),
        ensures
            b == (self.history().len() == self.clauses().len()),
            b == (forall|i: int| 0 <= i < self.mask().len() ==> #[trigger] self.mask()[i]),
    {
        proof {
            lemma_recorded_len(self.mask(), self.history());
            lemma_marked_bound(self.mask());
        }
        self.history.len() == self.formula.len()
    }

    /// Marks clause `i`: sets its mask bit, appends it to the history, and
    /// takes its occurrences out of the live counts.
    fn mark_satisfied(&mut self, i: usize)
        requires
            old(self).wf(),
            i < old(self).clauses().len(),
            !old(self).mask()[i as int],
        ensures
            final(self).wf(),
            final(self).clauses() == old(self).clauses(),
            final(self).declared() == old(self).declared(),
            final(self).mask() == old(self).mask().update(i as int, true),
            final(self).history() == old(self).history().push(i),
    {
        proof {
            lemma_recorded_mark(self.mask(), self.history(), i);
            let clauses = self.clauses();
            assert forall|v: usize, positive: bool| v <= self.n implies live(
                clauses,
                self.mask@.update(i as int, true),
                v,
                positive,
            ) + occurrences(side(clauses[i as int], positive), v) == #[trigger] live(
                clauses,
                self.mask@,
                v,
                positive,
            ) by {
                lemma_live_update(clauses, self.mask@, i as int, true, v, positive);
            }
            assert forall|j: int| 0 <= j < self.formula@[i as int].t@.len() implies (
            #[trigger] self.formula@[i as int].t@[j]) < self.count_t@.len() by {
                assert(side(clauses[i as int], true)[j] <= self.n);
            }
            assert forall|j: int| 0 <= j < self.formula@[i as int].f@.len() implies (
            #[trigger] self.formula@[i as int].f@[j]) < self.count_f@.len() by {
                assert(side(clauses[i as int], false)[j] <= self.n);
            }
            assert(side(clauses[i as int], true) == self.formula@[i as int].t@);
            assert(side(clauses[i as int], false) == self.formula@[i as int].f@);
        }
        self.mask[i] = true;
        self.history.push(i);
        count_down(&self.formula[i].t, &mut self.count_t);
        count_down(&self.formula[i].f, &mut self.count_f);
    }

    /// Whether clause `i` is satisfied: true at once where it is marked
    /// already; otherwise the clause is evaluated under `(t, f)` and, where
    /// it holds, marked.
    fn check_satisfied(&mut self, i: usize, t: &VarSet, f: &VarSet) -> (b: bool)
        requires
            old(self).wf(),
            i < old(self).clauses().len(),
        ensures
            final(self).wf(),
            final(self).clauses() == old(self).clauses(),
            final(self).declared() == old(self).declared(),
            b == (old(self).mask()[i as int] || old(self).clauses()[i as int].holds(t@, f@)),
            final(self).mask() == if b {
                old(self).mask().update(i as int, true)
            } else {
                old(self).mask()
            },
            final(self).history() == if b && !old(self).mask()[i as int] {
                old(self).history().push(i)
            } else {
                old(self).history()
            },
    {
        if self.mask[i] {
            proof {
                assert(self.mask@.update(i as int, true) =~= self.mask@);
            }
            return true;
        }
        if self.formula[i].eval(t, f) {
            self.mark_satisfied(i);
            return true;
        }
        false
    }

    /// Undoes every marking made since the history had `height` entries:
    /// clears the mask bits of the clauses recorded from there on, puts
    /// their occurrences back into the live counts, and cuts the history.
    fn pop_state(&mut self, height: usize)
        requires
            old(self).wf(),
            height <= old(self).history().len(),
        ensures
            final(self).wf(),
            final(self).clauses() == old(self).clauses(),
            final(self).declared() == old(self).declared(),
            final(self).history() == old(self).history().take(height as int),
            forall|i: usize|
                i < old(self).mask().len() ==> (#[trigger] final(self).mask()[i as int] <==> old(
                    self,
                ).mask()[i as int] && !old(self).history().skip(height as int).contains(i)),
    {
        let len = self.history.len();
        let ghost clauses = self.clauses();
        let ghost start = self.mask@;
        let ghost record = self.history@;
        let mut k: usize = height;
        while k < len
            invariant
                height <= k <= len,
                len == record.len(),
                self.history@ == record,
                literals(self.formula@) == clauses,
                self.n == old(self).n,
                Self::admits(clauses, self.n),
                recorded(start, record),
                self.mask@.len() == clauses.len(),
                start.len() == clauses.len(),
                self.count_t@.len() == self.n + 1,
                self.count_f@.len() == self.n + 1,
                forall|i: usize|
                    i < start.len() ==> (#[trigger] self.mask@[i as int] <==> start[i as int]
                        && !record.subrange(height as int, k as int).contains(i)),
                forall|v: usize|
                    v <= self.n ==> #[trigger] self.count_t@[v as int] == live(
                        clauses,
                        self.mask@,
                        v,
                        true,
                    ),
                forall|v: usize|
                    v <= self.n ==> #[trigger] self.count_f@[v as int] == live(
                        clauses,
                        self.mask@,
                        v,
                        false,
                    ),
            decreases len - k,
        {
            let i = self.history[k];
            let ghost before = self.mask@;
            proof {
                assert(record[k as int] < start.len());
                assert(start[i as int]) by {
                    assert(record.contains(i));
                }
                assert(!record.subrange(height as int, k as int).contains(i)) by {
                    if record.subrange(height as int, k as int).contains(i) {
                        let p = choose|p: int|
                            0 <= p < k - height && record.subrange(height as int, k as int)[p]
                                == i;
                        assert(record[height + p] == record[k as int]);
                    }
                }
                assert(before[i as int]);
                assert forall|v: usize, positive: bool| v <= self.n implies live(
                    clauses,
                    before.update(i as int, false),
                    v,
                    positive,
                ) == #[trigger] live(clauses, before, v, positive) + occurrences(
                    side(clauses[i as int], positive),
                    v,
                ) && live(clauses, before.update(i as int, false), v, positive) <= live(
                    clauses,
                    blank(clauses.len()),
                    v,
                    positive,
                ) by {
                    lemma_live_update(clauses, before, i as int, false, v, positive);
                    lemma_live_bound(clauses, before.update(i as int, false), v, positive);
                }
                assert forall|v: usize| v < self.count_t@.len() implies #[trigger] self.count_t@[v as int]
                    + occurrences(self.formula@[i as int].t@, v) <= usize::MAX by {
                    assert(side(clauses[i as int], true) == self.formula@[i as int].t@);
                    assert(live(clauses, blank(clauses.len()), v, true) + live(
                        clauses,
                        blank(clauses.len()),
                        v,
                        false,
                    ) <= usize::MAX);
                    assert(self.count_t@[v as int] == live(clauses, before, v, true));
                }
                assert forall|v: usize| v < self.count_f@.len() implies #[trigger] self.count_f@[v as int]
                    + occurrences(self.formula@[i as int].f@, v) <= usize::MAX by {
                    assert(side(clauses[i as int], false) == self.formula@[i as int].f@);
                    assert(live(clauses, blank(clauses.len()), v, true) + live(
                        clauses,
                        blank(clauses.len()),
                        v,
                        false,
                    ) <= usize::MAX);
                    assert(self.count_f@[v as int] == live(clauses, before, v, false));
                }
                assert forall|j: int| 0 <= j < self.formula@[i as int].t@.len() implies (
                #[trigger] self.formula@[i as int].t@[j]) < self.count_t@.len() by {
                    assert(side(clauses[i as int], true)[j] <= self.n);
                }
                assert forall|j: int| 0 <= j < self.formula@[i as int].f@.len() implies (
                #[trigger] self.formula@[i as int].f@[j]) < self.count_f@.len() by {
                    assert(side(clauses[i as int], false)[j] <= self.n);
                }
            }
            let ghost counted_t = self.count_t@;
            let ghost counted_f = self.count_f@;
            self.mask[i] = false;
            count_up(&self.formula[i].t, &mut self.count_t);
            count_up(&self.formula[i].f, &mut self.count_f);
            proof {
                assert(side(clauses[i as int], true) == self.formula@[i as int].t@);
                assert(side(clauses[i as int], false) == self.formula@[i as int].f@);
                assert forall|v: usize| v <= self.n implies #[trigger] self.count_t@[v as int]
                    == live(clauses, self.mask@, v, true) by {
                    assert(counted_t[v as int] == live(clauses, before, v, true));
                }
                assert forall|v: usize| v <= self.n implies #[trigger] self.count_f@[v as int]
                    == live(clauses, self.mask@, v, false) by {
                    assert(counted_f[v as int] == live(clauses, before, v, false));
                }
                let done = record.subrange(height as int, k as int);
                let more = record.subrange(height as int, k + 1);
                assert(more =~= done.push(i));
                assert forall|w: usize| w < start.len() implies (#[trigger] self.mask@[w as int]
                    <==> start[w as int] && !more.contains(w)) by {
                    if w == i {
                        assert(more[k - height] == i);
                    } else {
                        assert(self.mask@[w as int] == before[w as int]);
                        if done.contains(w) {
                            let p = choose|p: int| 0 <= p < done.len() && done[p] == w;
                            assert(more[p] == w);
                        }
                        if more.contains(w) {
                            let p = choose|p: int| 0 <= p < more.len() && more[p] == w;
                            assert(done[p] == w);
                        }
                    }
                }
            }
            k += 1;
        }
        self.history.truncate(height);
        proof {
            let kept = record.take(height as int);
            let dropped = record.skip(height as int);
            assert(record.subrange(height as int, len as int) =~= dropped);
            assert(self.history@ =~= kept);
            assert(recorded(self.mask@, kept)) by {
                assert forall|w: usize| w < self.mask@.len() implies (#[trigger] self.mask@[w as int]
                    <==> kept.contains(w)) by {
                    if self.mask@[w as int] {
                        assert(start[w as int]);
                        let p = choose|p: int| 0 <= p < record.len() && record[p] == w;
                        if p >= height {
                            assert(dropped[p - height] == w);
                        }
                        assert(kept[p] == w);
                    }
                    if kept.contains(w) {
                        let p = choose|p: int| 0 <= p < kept.len() && kept[p] == w;
                        assert(record[p] == w);
                        assert(record.contains(w));
                        if dropped.contains(w) {
                            let q = choose|q: int| 0 <= q < dropped.len() && dropped[q] == w;
                            assert(record[height + q] == record[p]);
                        }
                    }
                }
                assert forall|a: int, b: int|
                    0 <= a < kept.len() && 0 <= b < kept.len() && a != b implies kept[a]
                    != kept[b] by {
                    assert(record[a] != record[b]);
                }
                assert forall|p: int| 0 <= p < kept.len() implies #[trigger] kept[p]
                    < self.mask@.len() by {
                    assert(record[p] < start.len());
                }
            }
        }
    }

    /// Whether the total assignment that makes exactly the members of
    /// `solution` true satisfies every clause.
    pub fn validate(&self, solution: &VarSet) -> (b: bool)
        ensures
            b == self.valid(solution@),
    {
        let mut i: usize = 0;
        while i < self.formula.len()
            invariant
                i <= self.formula@.len(),
                forall|k: int| 0 <= k < i ==> (#[trigger] self.formula@[k])@.holds_complete(solution@),
            decreases self.formula@.len() - i,
        {
            if !self.formula[i].eval_complete(solution) {
                proof {
                    assert(self.clauses()[i as int] == self.formula@[i as int]@);
                }
                return false;
            }
            i += 1;
        }
        true
    }

    /// Two well-formed stores of one formula with one history have the
    /// same mask and the same counts.
    pub proof fn lemma_history_decides(&self, other: &CNF)
        requires
            self.wf(),
            other.wf(),
            self.clauses() == other.clauses(),
            self.declared() == other.declared(),
            self.history() == other.history(),
        ensures
            self.mask() == other.mask(),
            self.count_t() == other.count_t(),
            self.count_f() == other.count_f(),
    {
        assert(self.mask() =~= other.mask()) by {
            assert forall|i: int| 0 <= i < self.mask().len() implies self.mask()[i]
                == other.mask()[i] by {
                let u = i as usize;
                assert(self.mask()[u as int] <==> self.history().contains(u));
                assert(other.mask()[u as int] <==> other.history().contains(u));
            }
        }
        assert(self.count_t() =~= other.count_t()) by {
            assert forall|i: int| 0 <= i < self.count_t().len() implies self.count_t()[i]
                == other.count_t()[i] by {
                let u = i as usize;
                assert(self.count_t()[u as int] == other.count_t()[u as int]);
            }
        }
        assert(self.count_f() =~= other.count_f()) by {
            assert forall|i: int| 0 <= i < self.count_f().len() implies self.count_f()[i]
                == other.count_f()[i] by {
                let u = i as usize;
                assert(self.count_f()[u as int] == other.count_f()[u as int]);
            }
        }
    }

    /// One pass of unit propagation over all clauses. Returns `None` on a
    /// conflict, and otherwise whether a variable was assigned.
    fn propagate_units(&mut self, t: &mut VarSet, f: &mut VarSet) -> (r: Option<bool>)
        requires
            old(self).wf(),
            aligned(old(self).clauses(), old(self).trail(old(t)@, old(f)@)),
        ensures
            final(self).wf(),
            final(self).clauses() == old(self).clauses(),
            final(self).declared() == old(self).declared(),
            grows(old(self).trail(old(t)@, old(f)@), final(self).trail(final(t)@, final(f)@)),
            match unit_pass(
                old(self).clauses(),
                old(self).clauses().len(),
                old(self).trail(old(t)@, old(f)@),
            ) {
                None => r is None,
                Some((b, raised)) => r == Some(raised) && final(self).trail(final(t)@, final(f)@)
                    == b,
            },
    {
        let ghost clauses = self.clauses();
        let ghost n = self.n;
        let ghost start = self.trail(t@, f@);
        let len = self.formula.len();
        let mut changed = false;
        let mut i: usize = 0;
        proof {
            lemma_unit_pass(clauses, n, 0, start);
        }
        while i < len
            invariant
                i <= len,
                len == clauses.len(),
                n == self.n,
                self.wf(),
                self.clauses() == clauses,
                clauses == old(self).clauses(),
                n == old(self).declared(),
                start == old(self).trail(old(t)@, old(f)@),
                aligned(clauses, start),
                aligned(clauses, self.trail(t@, f@)),
                grows(start, self.trail(t@, f@)),
                unit_pass(clauses, i as nat, start) == Some((self.trail(t@, f@), changed)),
            decreases len - i,
        {
            let ghost mid = self.trail(t@, f@);
            proof {
                lemma_unit_pass(clauses, n, (i + 1) as nat, start);
                lemma_unit_step(clauses, n, i, mid, changed);
                assert(clauses[i as int] == self.formula@[i as int]@);
            }
            if self.check_satisfied(i, t, f) {
                proof {
                    if mid.mask[i as int] {
                        assert(mid.mask.update(i as int, true) =~= mid.mask);
                    }
                }
            } else {
                let head = Clause::find_unit(&self.formula[i].t, f, 2);
                if head.0 == 0 {
                    let tail = Clause::find_unit(&self.formula[i].f, t, 2);
                    if tail.0 == 0 {
                        proof {
                            crate::rules::lemma_unit_pass_conflict(
                                clauses,
                                (i + 1) as nat,
                                len as nat,
                                start,
                            );
                        }
                        return None;
                    } else if tail.0 == 1 {
                        proof {
                            let bag = clauses[i as int].f;
                            lemma_pending_sound(bag, t@, 0);
                            let j = choose|j: int|
                                0 <= j < bag.len() && #[trigger] bag[j] == pending(bag, t@)[0];
                            assert(side(clauses[i as int], false)[j] <= n);
                        }
                        f.insert(tail.1);
                        changed = true;
                        self.mark_satisfied(i);
                    }
                } else if head.0 == 1 {
                    let tail = Clause::find_unit(&self.formula[i].f, t, 1);
                    if tail.0 == 0 {
                        proof {
                            let bag = clauses[i as int].t;
                            lemma_pending_sound(bag, f@, 0);
                            let j = choose|j: int|
                                0 <= j < bag.len() && #[trigger] bag[j] == pending(bag, f@)[0];
                            assert(side(clauses[i as int], true)[j] <= n);
                        }
                        t.insert(head.1);
                        changed = true;
                        self.mark_satisfied(i);
                    }
                }
            }
            i += 1;
        }
        Some(changed)
    }

    /// The pure-literal sweep over all variables. Returns the flag, raised
    /// where a variable was assigned.
    fn assign_pure(&self, t: &mut VarSet, f: &mut VarSet, changed: bool) -> (r: bool)
        requires
            self.wf(),
        ensures
            ({
                let b = pure_sweep(
                    self.clauses(),
                    self.declared(),
                    self.trail(old(t)@, old(f)@),
                    changed,
                );
                self.trail(final(t)@, final(f)@) == b.0 && r == b.1
            }),
    {
        let ghost start = self.trail(t@, f@);
        let vars = self.variables();
        let mut raised = changed;
        let mut i: usize = vars.start;
        while i < vars.end
            invariant
                1 <= i <= vars.end,
                vars.end == self.n + 1,
                self.wf(),
                pure_sweep(self.clauses(), (i - 1) as usize, start, changed) == (
                    self.trail(t@, f@),
                    raised,
                ),
            decreases vars.end - i,
        {
            let is_true = self.count_t[i] != 0;
            let is_false = self.count_f[i] != 0;
            proof {
                assert(self.count_t()[i as int] == live(self.clauses(), self.mask(), i, true));
                assert(self.count_f()[i as int] == live(self.clauses(), self.mask(), i, false));
            }
            if is_true && !is_false && !f.contains(i) {
                t.insert(i);
                raised = true;
            }
            if is_false && !is_true && !t.contains(i) {
                f.insert(i);
                raised = true;
            }
            i += 1;
        }
        raised
    }

    /// The variable to branch on: among the unassigned variables the one
    /// with the most live occurrences, the least of them on a tie; 0 where
    /// no unassigned variable has a live occurrence.
    fn branching_strategy(&self, t: &VarSet, f: &VarSet) -> (r: usize)
        requires
            self.wf(),
        ensures
            r == best(self.clauses(), self.trail(t@, f@), self.declared()),
            chosen(self.clauses(), self.declared(), self.trail(t@, f@), r),
    {
        let ghost st = self.trail(t@, f@);
        let vars = self.variables();
        let mut count: usize = 0;
        let mut result: usize = 0;
        let mut i: usize = vars.start;
        while i < vars.end
            invariant
                1 <= i <= vars.end,
                vars.end == self.n + 1,
                self.wf(),
                st == self.trail(t@, f@),
                result == best(self.clauses(), st, (i - 1) as usize),
                result < i,
                count == if result == 0 {
                    0
                } else {
                    weight(self.clauses(), st.mask, result)
                },
            decreases vars.end - i,
        {
            proof {
                let clauses = self.clauses();
                assert(self.count_t()[i as int] == live(clauses, self.mask(), i, true));
                assert(self.count_f()[i as int] == live(clauses, self.mask(), i, false));
                lemma_live_bound(clauses, self.mask(), i, true);
                lemma_live_bound(clauses, self.mask(), i, false);
                assert(live(clauses, blank(clauses.len()), i, true) + live(
                    clauses,
                    blank(clauses.len()),
                    i,
                    false,
                ) <= usize::MAX);
            }
            let item = self.count_t[i] + self.count_f[i];
            if item > count && !t.contains(i) && !f.contains(i) {
                count = item;
                result = i;
            }
            i += 1;
        }
        proof {
            lemma_best_chosen(self.clauses(), st, self.n);
        }
        result
    }

    /// Searches for a total assignment that satisfies every clause, makes
    /// the members of `t` true and the members of `f` false.
    ///
    /// Returns the set of the variables that such an assignment makes
    /// true, and leaves every clause marked; or returns `None` where there
    /// is no such assignment, and leaves the bookkeeping as it found it.
    /// The assignment returned is the one that `search` defines.
    #[verifier::loop_isolation(false)]
    pub fn dpll(&mut self, t: &VarSet, f: &VarSet) -> (r: Option<VarSet>)
        requires
            old(self).wf(),
            t@.disjoint(f@),
            tracks(old(self).clauses(), old(self).trail(t@, f@)),
        ensures
            final(self).wf(),
            final(self).clauses() == old(self).clauses(),
            final(self).declared() == old(self).declared(),
            r is Some <==> satisfiable_under(old(self).clauses(), t@, f@),
            r is Some ==> final(self).valid(r->0@) && agrees(r->0@, t@, f@),
            match r {
                Some(s) => Some(s@),
                None => None,
            } == old(self).answer(t@, f@),
            r is Some ==> {
                &&& final(self).history().len() == final(self).clauses().len()
                &&& final(self).history().take(old(self).history().len() as int) == old(
                    self,
                ).history()
                &&& final(self).mask() == old(self).found(t@, f@)->0.mask
                &&& final(self).history() == old(self).found(t@, f@)->0.history
            },
            r is None ==> {
                &&& final(self).mask() == old(self).mask()
                &&& final(self).history() == old(self).history()
                &&& final(self).count_t() == old(self).count_t()
                &&& final(self).count_f() == old(self).count_f()
            },
        decreases free(old(self).declared(), t@, f@),
    {
        let ghost clauses = self.clauses();
        let ghost n = self.n;
        let ghost start = self.trail(t@, f@);
        let height = self.history.len();
        let mut t = t.clone();
        let mut f = f.clone();
        proof {
            assert(start.history.take(start.history.len() as int) =~= start.history);
            lemma_search(clauses, n, start);
            lemma_settle(clauses, n, start);
            match search(clauses, n, start) {
                Some(a) => {
                    lemma_marked_model(clauses, a);
                    assert(agrees(a.t, start.t, start.f));
                },
                None => {},
            }
        }
        let mut changed = true;
        while changed
            invariant
                self.wf(),
                self.clauses() == clauses,
                self.declared() == n,
                aligned(clauses, self.trail(t@, f@)),
                grows(start, self.trail(t@, f@)),
                changed ==> settle(clauses, n, self.trail(t@, f@)) == settle(clauses, n, start),
                !changed ==> settle(clauses, n, start) == Settled::Open(self.trail(t@, f@)),
            decreases
                    potential(clauses, n, self.trail(t@, f@)),
                    slack(clauses, self.trail(t@, f@)),
                    if changed {
                        1int
                    } else {
                        0int
                    },
        {
            let ghost cur = self.trail(t@, f@);
            proof {
                lemma_round(clauses, n, cur);
            }
            match self.propagate_units(&mut t, &mut f) {
                None => {
                    proof {
                        crate::rules::lemma_grows_trans(start, cur, self.trail(t@, f@));
                        assert(self.history().take(height as int) == start.history);
                    }
                    self.pop_state(height);
                    proof {
                        self.lemma_history_decides(old(self));
                    }
                    return None;
                },
                Some(units) => {
                    changed = units;
                },
            }
            proof {
                crate::rules::lemma_grows_trans(start, cur, self.trail(t@, f@));
            }
            if self.all_satisfied() {
                return Some(t);
            }
            if !t.is_disjoint(&f) {
                self.pop_state(height);
                proof {
                    self.lemma_history_decides(old(self));
                }
                return None;
            }
            changed = self.assign_pure(&mut t, &mut f, changed);
            proof {
                crate::rules::lemma_grows_trans(start, cur, self.trail(t@, f@));
            }
        }
        let ghost open = self.trail(t@, f@);
        let branch_var = self.branching_strategy(&t, &f);
        proof {
            lemma_branch(clauses, n, open, branch_var, true);
            lemma_branch(clauses, n, open, branch_var, false);
        }
        t.insert(branch_var);
        match self.dpll(&t, &f) {
            Some(set) => {
                return Some(set);
            },
            None => {},
        }
        t.remove(branch_var);
        proof {
            assert(t@ =~= open.t);
        }
        f.insert(branch_var);
        match self.dpll(&t, &f) {
            Some(set) => {
                return Some(set);
            },
            None => {},
        }
        self.pop_state(height);
        proof {
            self.lemma_history_decides(old(self));
        }
        None
    }

    /// Searches for a total assignment that satisfies every clause, from
    /// a store in which no clause is marked and with no variable given.
    ///
    /// Returns the set of the variables that the assignment makes true,
    /// or `None` where the formula is unsatisfiable.
    pub fn solve(&mut self) -> (r: Option<VarSet>)
        requires
            old(self).wf(),
            old(self).history().len() == 0,
        ensures
            final(self).wf(),
            final(self).clauses() == old(self).clauses(),
            final(self).declared() == old(self).declared(),
            r is Some <==> exists|m: Set<usize>| old(self).valid(m),
            r is Some ==> final(self).valid(r->0@),
            match r {
                Some(s) => Some(s@),
                None => None,
            } == old(self).answer(Set::empty(), Set::empty()),
            r is Some ==> final(self).history().len() == final(self).clauses().len(),
            r is None ==> {
                &&& final(self).mask() == old(self).mask()
                &&& final(self).history() == old(self).history()
                &&& final(self).count_t() == old(self).count_t()
                &&& final(self).count_f() == old(self).count_f()
            },
    {
        let t = VarSet::new();
        let f = VarSet::new();
        proof {
            let clauses = self.clauses();
            let none = Set::<usize>::empty();
            assert forall|i: int| 0 <= i < clauses.len() implies !#[trigger] self.mask()[i] by {
                let u = i as usize;
                assert(self.mask()[u as int] <==> self.history().contains(u));
            }
            if exists|m: Set<usize>| self.valid(m) {
                let m = choose|m: Set<usize>| self.valid(m);
                assert(is_model(clauses, m) && agrees(m, none, none));
            }
        }
        let r = self.dpll(&t, &f);
        proof {
            if r is Some {
                assert(old(self).valid(r->0@));
            }
        }
        r
    }

    /// The formula as text: a header line with the number of variables
    /// and the number of clauses, then one line for each clause.
    pub fn to_text(&self) -> (r: Vec<u8>)
        ensures
            r@ == formula_text(self.declared() as nat, self.clauses()),
    {
        let mut out: Vec<u8> = Vec::new();
        out.push(112);
        out.push(32);
        out.push(99);
        out.push(110);
        out.push(102);
        out.push(32);
        push_decimal(&mut out, self.n);
        out.push(32);
        push_decimal(&mut out, self.formula.len());
        out.push(10);
        let ghost head = out@;
        proof {
            assert(head =~= header_text(self.n as nat, self.clauses().len()));
            assert(out@ =~= head + body_text(self.clauses(), 0));
        }
        let mut i: usize = 0;
        while i < self.formula.len()
            invariant
                i <= self.formula@.len(),
                out@ == head + body_text(self.clauses(), i as nat),
            decreases self.formula@.len() - i,
        {
            push_bag(&mut out, &self.formula[i].t, false);
            push_bag(&mut out, &self.formula[i].f, true);
            out.push(48);
            out.push(10);
            proof {
                assert(self.clauses()[i as int] == self.formula@[i as int]@);
                assert(out@ =~= head + body_text(self.clauses(), (i + 1) as nat));
            }
            i += 1;
        }
        out
    }

    /// An assignment as text: every variable of the formula as a number,
    /// under a minus sign where `solution` does not hold it.
    pub fn solution_line(&self, solution: &VarSet) -> (r: Vec<u8>)
        requires
            self.declared() < usize::MAX,
        ensures
            r@ == solution_text(solution@, self.declared() as nat),
    {
        let mut out: Vec<u8> = Vec::new();
        let vars = self.variables();
        let mut v: usize = vars.start;
        proof {
            assert(out@ =~= solution_text(solution@, 0));
        }
        while v < vars.end
            invariant
                1 <= v <= vars.end,
                vars.end == self.n + 1,
                out@ == solution_text(solution@, (v - 1) as nat),
            decreases vars.end - v,
        {
            if v > 1 {
                out.push(32);
            }
            if !solution.contains(v) {
                out.push(45);
            }
            push_decimal(&mut out, v);
            proof {
                assert(out@ =~= solution_text(solution@, v as nat));
            }
            v += 1;
        }
        out
    }

    /// The number of clauses that are marked.
    pub fn height(&self) -> (h: usize)
        ensures
            h == self.history().len(),
    {
        self.history.len()
    }

    /// Whether clause `i` is marked; `false` where there is no clause `i`.
    pub fn is_marked(&self, i: usize) -> (b: bool)
        ensures
            b == (i < self.mask().len() && self.mask()[i as int]),
    {
        i < self.mask.len() && self.mask[i]
    }

    /// The counter of the variable `v` for a polarity: the occurrences of
    /// `v` in unmarked clauses, as far as the store is well-formed; 0
    /// where the store has no counter for `v`.
    pub fn live_count(&self, v: usize, positive: bool) -> (c: usize)
        ensures
            c == if positive {
                if v < self.count_t().len() {
                    self.count_t()[v as int]
                } else {
                    0
                }
            } else {
                if v < self.count_f().len() {
                    self.count_f()[v as int]
                } else {
                    0
                }
            },
    {
        if positive {
            if v < self.count_t.len() {
                self.count_t[v]
            } else {
                0
            }
        } else {
            if v < self.count_f.len() {
                self.count_f[v]
            } else {
                0
            }
        }
    }

    /// The variables of the formula: `1..=n` as a half-open range.
    #[inline]
    pub fn variables(&self) -> (r: Range<usize>)
        requires
            self.declared() < usize::MAX,
        ensures
            r.start == 1,
            r.end == self.declared() + 1,
    {
        1..(self.n + 1)
    }
}

} // verus!
