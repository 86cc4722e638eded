//! The search as a function on trails: propagation to a fixpoint, the
//! choice of a branching variable, and the two recursive branches; with
//! the proofs that it ends, that what it finds is a model, and that it
//! finds one whenever there is one.

use crate::clause::Literals;
use crate::occurrence::in_range;
use crate::occurrence::lemma_live_witness;
use crate::occurrence::live;
use crate::occurrence::side;
use crate::rules::grows;
use crate::rules::keeps;
use crate::rules::lemma_assign_aligned;
use crate::rules::lemma_grows_trans;
use crate::rules::lemma_pure_sweep;
use crate::rules::lemma_sound_move_trans;
use crate::rules::lemma_unit_pass;
use crate::rules::open_clause;
use crate::rules::pure_sweep;
use crate::rules::sound_move;
use crate::rules::unit_pass;
use crate::trail::Trail;
use crate::trail::agrees;
use crate::trail::aligned;
use crate::trail::free;
use crate::trail::is_model;
use crate::trail::lagging;
use crate::trail::lemma_free_strict;
use crate::trail::lemma_holds_complete;
use crate::trail::lemma_marked_bound;
use crate::trail::lemma_recorded_len;
use crate::trail::satisfiable_under;
use vstd::prelude::*;

verus! {

/// How propagation ends: every clause is marked; or a clause cannot hold
/// any more; or nothing more follows and a variable has to be tried.
pub enum Settled {
    Sat(Trail),
    Conflict,
    Open(Trail),
}

/// The free variables plus the unmarked clauses: what propagation uses up.
pub open spec fn potential(clauses: Seq<Literals>, n: usize, st: Trail) -> int {
    free(n, st.t, st.f) + clauses.len() - st.history.len()
}

/// 0 where a clause that holds still waits to be marked, else 1.
pub open spec fn slack(clauses: Seq<Literals>, st: Trail) -> int {
    if lagging(clauses, st) {
        0
    } else {
        1
    }
}

/// What one round of propagation (unit propagation over all clauses, then
/// the pure-literal sweep over all variables) guarantees.
pub open spec fn round_ok(clauses: Seq<Literals>, n: usize, st: Trail) -> bool {
    match unit_pass(clauses, clauses.len(), st) {
        None => !satisfiable_under(clauses, st.t, st.f),
        Some((a, units)) => {
            let b = pure_sweep(clauses, n, a, units);
            &&& sound_move(clauses, n, st, a)
            &&& sound_move(clauses, n, st, b.0)
            &&& a.history.len() <= clauses.len()
            &&& b.0.mask == a.mask
            &&& b.0.history == a.history
            &&& 0 <= potential(clauses, n, b.0) <= potential(clauses, n, st)
            &&& lagging(clauses, st) ==> potential(clauses, n, b.0) < potential(clauses, n, st)
            &&& b.1 ==> potential(clauses, n, b.0) < potential(clauses, n, st) || (potential(
                clauses,
                n,
                b.0,
            ) == potential(clauses, n, st) && slack(clauses, b.0) < slack(clauses, st))
            &&& !b.1 ==> {
                &&& b.0 == a
                &&& forall|i: int|
                    0 <= i < clauses.len() ==> #[trigger] a.mask[i] || open_clause(
                        clauses[i],
                        a.t,
                        a.f,
                    )
            }
        },
    }
}

/// One round of propagation keeps its guarantee.
pub proof fn lemma_round(clauses: Seq<Literals>, n: usize, st: Trail)
    requires
        in_range(clauses, n),
        aligned(clauses, st),
    ensures
        round_ok(clauses, n, st),
{
    lemma_unit_pass(clauses, n, clauses.len(), st);
    match unit_pass(clauses, clauses.len(), st) {
        None => {},
        Some((a, units)) => {
            lemma_pure_sweep(clauses, n, n, a, units);
            let b = pure_sweep(clauses, n, a, units);
            lemma_sound_move_trans(clauses, n, st, a, b.0);
            lemma_recorded_len(a.mask, a.history);
            lemma_recorded_len(st.mask, st.history);
            if lagging(clauses, st) {
                let i = choose|i: int|
                    0 <= i < clauses.len() && !#[trigger] st.mask[i] && clauses[i].holds(
                        st.t,
                        st.f,
                    );
                assert(a.mask[i]);
                let u = i as usize;
                assert(a.mask[u as int]);
                assert(a.history.contains(u));
                assert(!st.mask[u as int]);
                assert(!st.history.contains(u));
                if a.history.len() == st.history.len() {
                    assert(a.history.take(st.history.len() as int) =~= a.history);
                }
                assert(a.history.len() > st.history.len());
            }
        },
    }
}

/// Propagation to a fixpoint: rounds are repeated for as long as one of
/// them assigns a variable.
pub open spec fn settle(clauses: Seq<Literals>, n: usize, st: Trail) -> Settled
    decreases potential(clauses, n, st), slack(clauses, st),
    when in_range(clauses, n) && aligned(clauses, st)
    via settle_decreases
{
    match unit_pass(clauses, clauses.len(), st) {
        None => Settled::Conflict,
        Some((a, units)) => {
            if a.history.len() == clauses.len() {
                Settled::Sat(a)
            } else if !a.t.disjoint(a.f) {
                Settled::Conflict
            } else {
                let b = pure_sweep(clauses, n, a, units);
                if b.1 {
                    settle(clauses, n, b.0)
                } else {
                    Settled::Open(b.0)
                }
            }
        },
    }
}

/// A further round starts from less potential, or from the same with
/// less slack.
#[via_fn]
proof fn settle_decreases(clauses: Seq<Literals>, n: usize, st: Trail) {
    lemma_round(clauses, n, st);
}

/// The live occurrences of a variable, of both polarities.
pub open spec fn weight(clauses: Seq<Literals>, mask: Seq<bool>, v: usize) -> nat {
    live(clauses, mask, v, true) + live(clauses, mask, v, false)
}

/// The variable is one of `1..=n` and is not assigned.
pub open spec fn eligible(n: usize, st: Trail, v: usize) -> bool {
    1 <= v <= n && !st.t.contains(v) && !st.f.contains(v)
}

/// `r` is the branching choice among `1..=n`: the unassigned variable of
/// the greatest positive weight, the least such variable where several
/// have that weight; or 0 where no unassigned variable has a live
/// occurrence.
pub open spec fn chosen(clauses: Seq<Literals>, n: usize, st: Trail, r: usize) -> bool {
    if r == 0 {
        forall|v: usize| #[trigger] eligible(n, st, v) ==> weight(clauses, st.mask, v) == 0
    } else {
        &&& eligible(n, st, r)
        &&& weight(clauses, st.mask, r) > 0
        &&& forall|v: usize| #[trigger]
            eligible(n, st, v) ==> weight(clauses, st.mask, v) <= weight(clauses, st.mask, r) && (v
                < r ==> weight(clauses, st.mask, v) < weight(clauses, st.mask, r))
    }
}

/// The branching choice, found by one scan of `1..=upto` that keeps the
/// first variable of a strictly greater weight.
pub open spec fn best(clauses: Seq<Literals>, st: Trail, upto: usize) -> usize
    decreases upto,
{
    if upto == 0 {
        0
    } else {
        let prev = best(clauses, st, (upto - 1) as usize);
        let bar = if prev == 0 {
            0
        } else {
            weight(clauses, st.mask, prev)
        };
        if weight(clauses, st.mask, upto) > bar && !st.t.contains(upto) && !st.f.contains(upto) {
            upto
        } else {
            prev
        }
    }
}

/// The scan finds the branching choice.
pub proof fn lemma_best_chosen(clauses: Seq<Literals>, st: Trail, upto: usize)
    ensures
        chosen(clauses, upto, st, best(clauses, st, upto)),
        best(clauses, st, upto) <= upto,
    decreases upto,
{
    if upto > 0 {
        let less = (upto - 1) as usize;
        lemma_best_chosen(clauses, st, less);
        let prev = best(clauses, st, less);
        let r = best(clauses, st, upto);
        if r == 0 {
            assert forall|v: usize| #[trigger] eligible(upto, st, v) implies weight(
                clauses,
                st.mask,
                v,
            ) == 0 by {
                if v < upto {
                    assert(eligible(less, st, v));
                }
            }
        } else {
            assert forall|v: usize| #[trigger] eligible(upto, st, v) implies weight(
                clauses,
                st.mask,
                v,
            ) <= weight(clauses, st.mask, r) && (v < r ==> weight(clauses, st.mask, v) < weight(
                clauses,
                st.mask,
                r,
            )) by {
                if v < upto {
                    assert(eligible(less, st, v));
                }
            }
            if prev != 0 {
                assert(eligible(less, st, prev));
            }
        }
    }
}

/// What propagation to a fixpoint guarantees.
pub open spec fn settle_ok(clauses: Seq<Literals>, n: usize, st: Trail) -> bool {
    match settle(clauses, n, st) {
        Settled::Conflict => !satisfiable_under(clauses, st.t, st.f),
        Settled::Sat(a) => sound_move(clauses, n, st, a) && a.history.len() == clauses.len(),
        Settled::Open(b) => {
            &&& sound_move(clauses, n, st, b)
            &&& b.history.len() < clauses.len()
            &&& eligible(n, b, best(clauses, b, n))
        },
    }
}

/// Where not every clause is marked and every unmarked clause is open,
/// the branching choice is an unassigned variable.
pub proof fn lemma_open_choice(clauses: Seq<Literals>, n: usize, b: Trail)
    requires
        in_range(clauses, n),
        aligned(clauses, b),
        b.history.len() != clauses.len(),
        forall|i: int|
            0 <= i < clauses.len() ==> #[trigger] b.mask[i] || open_clause(clauses[i], b.t, b.f),
    ensures
        eligible(n, b, best(clauses, b, n)),
{
    lemma_recorded_len(b.mask, b.history);
    lemma_marked_bound(b.mask);
    let i = choose|i: int| 0 <= i < b.mask.len() && !#[trigger] b.mask[i];
    assert(b.mask[i] || open_clause(clauses[i], b.t, b.f));
    let c = clauses[i];
    let (positive, j) = choose|positive: bool, j: int|
        0 <= j < side(c, positive).len() && !b.t.contains(#[trigger] side(c, positive)[j])
            && !b.f.contains(side(c, positive)[j]);
    let w = side(c, positive)[j];
    lemma_live_witness(clauses, b.mask, i, j, positive);
    assert(eligible(n, b, w));
    assert(weight(clauses, b.mask, w) > 0);
    lemma_best_chosen(clauses, b, n);
}

/// Propagation to a fixpoint keeps its guarantee.
pub proof fn lemma_settle(clauses: Seq<Literals>, n: usize, st: Trail)
    requires
        in_range(clauses, n),
        aligned(clauses, st),
    ensures
        settle_ok(clauses, n, st),
    decreases potential(clauses, n, st), slack(clauses, st),
{
    lemma_round(clauses, n, st);
    match unit_pass(clauses, clauses.len(), st) {
        None => {},
        Some((a, units)) => {
            if a.history.len() == clauses.len() {
            } else if !a.t.disjoint(a.f) {
            } else {
                let b = pure_sweep(clauses, n, a, units);
                if b.1 {
                    lemma_settle(clauses, n, b.0);
                    match settle(clauses, n, b.0) {
                        Settled::Conflict => {},
                        Settled::Sat(z) => {
                            lemma_sound_move_trans(clauses, n, st, b.0, z);
                        },
                        Settled::Open(z) => {
                            lemma_sound_move_trans(clauses, n, st, b.0, z);
                        },
                    }
                } else {
                    lemma_open_choice(clauses, n, a);
                }
            }
        },
    }
}

/// The trail in which the variable `v` is tried as true, or as false.
pub open spec fn branch(st: Trail, v: usize, positive: bool) -> Trail {
    if positive {
        Trail { t: st.t.insert(v), ..st }
    } else {
        Trail { f: st.f.insert(v), ..st }
    }
}

/// Trying an unassigned variable keeps the trail aligned and leaves fewer
/// variables free.
pub proof fn lemma_branch(clauses: Seq<Literals>, n: usize, st: Trail, v: usize, positive: bool)
    requires
        aligned(clauses, st),
        eligible(n, st, v),
    ensures
        aligned(clauses, branch(st, v, positive)),
        grows(st, branch(st, v, positive)),
        free(n, branch(st, v, positive).t, branch(st, v, positive).f) < free(n, st.t, st.f),
{
    let b = branch(st, v, positive);
    lemma_assign_aligned(clauses, st, b);
    lemma_free_strict(n, st.t, st.f, b.t, b.f, v);
}

/// The search from a trail: the trail in which every clause is marked, or
/// `None` where the formula cannot be satisfied from there. After
/// propagation the branching choice is tried as true and then, where that
/// fails, as false.
pub open spec fn search(clauses: Seq<Literals>, n: usize, st: Trail) -> Option<Trail>
    decreases free(n, st.t, st.f),
    when in_range(clauses, n) && aligned(clauses, st)
    via search_decreases
{
    match settle(clauses, n, st) {
        Settled::Sat(a) => Some(a),
        Settled::Conflict => None,
        Settled::Open(b) => {
            let v = best(clauses, b, n);
            match search(clauses, n, branch(b, v, true)) {
                Some(a) => Some(a),
                None => search(clauses, n, branch(b, v, false)),
            }
        },
    }
}

/// Each branch starts with fewer free variables.
#[via_fn]
proof fn search_decreases(clauses: Seq<Literals>, n: usize, st: Trail) {
    lemma_settle(clauses, n, st);
    match settle(clauses, n, st) {
        Settled::Open(b) => {
            let v = best(clauses, b, n);
            lemma_branch(clauses, n, b, v, true);
            lemma_branch(clauses, n, b, v, false);
        },
        _ => {},
    }
}

/// What the search guarantees: the trail it returns grows the given one,
/// is aligned and has every clause marked; it returns none only where no
/// total assignment that agrees with the given one satisfies the formula.
pub open spec fn search_ok(clauses: Seq<Literals>, n: usize, st: Trail) -> bool {
    match search(clauses, n, st) {
        Some(a) => aligned(clauses, a) && grows(st, a) && a.history.len() == clauses.len(),
        None => !satisfiable_under(clauses, st.t, st.f),
    }
}

/// The search keeps its guarantee.
pub proof fn lemma_search(clauses: Seq<Literals>, n: usize, st: Trail)
    requires
        in_range(clauses, n),
        aligned(clauses, st),
    ensures
        search_ok(clauses, n, st),
    decreases free(n, st.t, st.f),
{
    lemma_settle(clauses, n, st);
    match settle(clauses, n, st) {
        Settled::Sat(a) => {},
        Settled::Conflict => {},
        Settled::Open(b) => {
            let v = best(clauses, b, n);
            let yes = branch(b, v, true);
            let no = branch(b, v, false);
            lemma_branch(clauses, n, b, v, true);
            lemma_branch(clauses, n, b, v, false);
            lemma_search(clauses, n, yes);
            match search(clauses, n, yes) {
                Some(a) => {
                    lemma_grows_trans(st, b, yes);
                    lemma_grows_trans(st, yes, a);
                },
                None => {
                    lemma_search(clauses, n, no);
                    match search(clauses, n, no) {
                        Some(a) => {
                            lemma_grows_trans(st, b, no);
                            lemma_grows_trans(st, no, a);
                        },
                        None => {
                            assert(!satisfiable_under(clauses, b.t, b.f)) by {
                                if satisfiable_under(clauses, b.t, b.f) {
                                    let m = choose|m: Set<usize>|
                                        is_model(clauses, m) && #[trigger] agrees(m, b.t, b.f);
                                    if m.contains(v) {
                                        assert(agrees(m, yes.t, yes.f));
                                    } else {
                                        assert(agrees(m, no.t, no.f));
                                    }
                                }
                            }
                        },
                    }
                },
            }
        },
    }
}

/// In an aligned trail with every clause marked, the variables made true
/// form a model, and it agrees with the trail.
pub proof fn lemma_marked_model(clauses: Seq<Literals>, a: Trail)
    requires
        aligned(clauses, a),
        a.history.len() == clauses.len(),
    ensures
        is_model(clauses, a.t),
        agrees(a.t, a.t, a.f),
{
    lemma_recorded_len(a.mask, a.history);
    lemma_marked_bound(a.mask);
    assert forall|i: int| 0 <= i < clauses.len() implies (#[trigger] clauses[i]).holds_complete(
        a.t,
    ) by {
        assert(a.mask[i]);
        lemma_holds_complete(clauses[i], a.t, a.f, a.t);
    }
}

} // verus!
