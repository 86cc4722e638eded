//! The two inference rules of the search, as functions on trails: unit
//! propagation over the clauses and the pure-literal sweep over the
//! variables; and what each of them preserves.

use crate::clause::Literals;
use crate::clause::lemma_pending_none;
use crate::clause::lemma_pending_single;
use crate::clause::lemma_pending_sound;
use crate::clause::pending;
use crate::clause::probe;
use crate::occurrence::in_range;
use crate::occurrence::lemma_live_none;
use crate::occurrence::lemma_live_some;
use crate::occurrence::live;
use crate::occurrence::side;
use crate::trail::Trail;
use crate::trail::agrees;
use crate::trail::aligned;
use crate::trail::free;
use crate::trail::is_model;
use crate::trail::lagging;
use crate::trail::lemma_free_mono;
use crate::trail::lemma_free_strict;
use crate::trail::lemma_holds_complete;
use crate::trail::lemma_holds_mono;
use crate::trail::lemma_recorded_mark;
use crate::trail::mark;
use crate::trail::satisfiable_under;
use vstd::prelude::*;

verus! {

/// What unit propagation does with clause `i`. A marked clause, or one
/// that holds, is settled (and marked). Otherwise the literals that the
/// assignment has not made false are probed: with none left the result is
/// `None`, a conflict; with exactly one left its variable is assigned so
/// that the clause holds, the clause is marked and the flag is raised.
pub open spec fn unit_step(c: Literals, i: usize, st: Trail, changed: bool) -> Option<(Trail, bool)> {
    if st.mask[i as int] {
        Some((st, changed))
    } else if c.holds(st.t, st.f) {
        Some((mark(st, i), changed))
    } else {
        let head = probe(c.t, st.f, 2);
        if head.0 == 0 {
            let tail = probe(c.f, st.t, 2);
            if tail.0 == 0 {
                None
            } else if tail.0 == 1 {
                Some((mark(Trail { f: st.f.insert(tail.1), ..st }, i), true))
            } else {
                Some((st, changed))
            }
        } else if head.0 == 1 {
            if probe(c.f, st.t, 1).0 == 0 {
                Some((mark(Trail { t: st.t.insert(head.1), ..st }, i), true))
            } else {
                Some((st, changed))
            }
        } else {
            Some((st, changed))
        }
    }
}

/// Unit propagation over the first `upto` clauses, in their order, with
/// the flag that tells whether a variable was assigned.
pub open spec fn unit_pass(clauses: Seq<Literals>, upto: nat, st: Trail) -> Option<(Trail, bool)>
    decreases upto,
{
    if upto == 0 {
        Some((st, false))
    } else {
        match unit_pass(clauses, (upto - 1) as nat, st) {
            None => None,
            Some((mid, changed)) => unit_step(
                clauses[upto - 1],
                (upto - 1) as usize,
                mid,
                changed,
            ),
        }
    }
}

/// What the pure-literal sweep does with variable `v`: where its live
/// occurrences all have one polarity and the assignment does not say the
/// opposite, it is assigned that polarity and the flag is raised.
pub open spec fn pure_step(clauses: Seq<Literals>, v: usize, st: Trail, changed: bool) -> (
    Trail,
    bool,
) {
    let positive = live(clauses, st.mask, v, true) != 0;
    let negative = live(clauses, st.mask, v, false) != 0;
    if positive && !negative && !st.f.contains(v) {
        (Trail { t: st.t.insert(v), ..st }, true)
    } else if negative && !positive && !st.t.contains(v) {
        (Trail { f: st.f.insert(v), ..st }, true)
    } else {
        (st, changed)
    }
}

/// The pure-literal sweep over the variables `1..=upto`, in their order.
pub open spec fn pure_sweep(clauses: Seq<Literals>, upto: usize, st: Trail, changed: bool) -> (
    Trail,
    bool,
)
    decreases upto,
{
    if upto == 0 {
        (st, changed)
    } else {
        let mid = pure_sweep(clauses, (upto - 1) as usize, st, changed);
        pure_step(clauses, upto, mid.0, mid.1)
    }
}

/// The later trail assigns what the earlier one does, and has marked what
/// the earlier one has, in the same order.
pub open spec fn grows(a: Trail, b: Trail) -> bool {
    &&& a.t.subset_of(b.t)
    &&& a.f.subset_of(b.f)
    &&& a.mask.len() == b.mask.len()
    &&& a.history.len() <= b.history.len()
    &&& b.history.take(a.history.len() as int) == a.history
    &&& forall|i: int| 0 <= i < a.mask.len() && a.mask[i] ==> #[trigger] b.mask[i]
}

/// If the formula can be satisfied from the earlier trail, it can be from
/// the later one.
pub open spec fn keeps(clauses: Seq<Literals>, a: Trail, b: Trail) -> bool {
    satisfiable_under(clauses, a.t, a.f) ==> satisfiable_under(clauses, b.t, b.f)
}

/// Some variable of the clause is in neither set.
pub open spec fn open_clause(c: Literals, t: Set<usize>, f: Set<usize>) -> bool {
    exists|positive: bool, j: int|
        0 <= j < side(c, positive).len() && !t.contains(#[trigger] side(c, positive)[j])
            && !f.contains(side(c, positive)[j])
}

/// A rule applied to an aligned trail leaves an aligned trail that grows
/// it, frees no variable, and keeps the formula satisfiable if it was.
pub open spec fn sound_move(clauses: Seq<Literals>, n: usize, a: Trail, b: Trail) -> bool {
    &&& aligned(clauses, b)
    &&& grows(a, b)
    &&& keeps(clauses, a, b)
    &&& free(n, b.t, b.f) <= free(n, a.t, a.f)
}

/// Growing is transitive.
pub proof fn lemma_grows_trans(a: Trail, b: Trail, c: Trail)
    requires
        grows(a, b),
        grows(b, c),
    ensures
        grows(a, c),
{
    assert(c.history.take(a.history.len() as int) =~= b.history.take(a.history.len() as int)) by {
        assert(c.history.take(b.history.len() as int) == b.history);
        assert forall|k: int| 0 <= k < a.history.len() implies c.history[k] == b.history[k] by {
            assert(c.history.take(b.history.len() as int)[k] == b.history[k]);
        }
    }
}

/// Sound moves compose.
pub proof fn lemma_sound_move_trans(clauses: Seq<Literals>, n: usize, a: Trail, b: Trail, c: Trail)
    requires
        sound_move(clauses, n, a, b),
        sound_move(clauses, n, b, c),
    ensures
        sound_move(clauses, n, a, c),
{
    lemma_grows_trans(a, b, c);
}

/// Marking a clause that holds keeps the trail aligned.
pub proof fn lemma_mark_aligned(clauses: Seq<Literals>, st: Trail, i: usize)
    requires
        aligned(clauses, st),
        i < clauses.len(),
        !st.mask[i as int],
        clauses[i as int].holds(st.t, st.f),
    ensures
        aligned(clauses, mark(st, i)),
        grows(st, mark(st, i)),
{
    lemma_recorded_mark(st.mask, st.history, i);
    let b = mark(st, i);
    assert(b.history.take(st.history.len() as int) =~= st.history);
}

/// Assigning more keeps the marked clauses true.
pub proof fn lemma_assign_aligned(clauses: Seq<Literals>, st: Trail, b: Trail)
    requires
        aligned(clauses, st),
        b.mask == st.mask,
        b.history == st.history,
        st.t.subset_of(b.t),
        st.f.subset_of(b.f),
        b.t.disjoint(b.f),
    ensures
        aligned(clauses, b),
        grows(st, b),
{
    assert forall|k: int| 0 <= k < clauses.len() && #[trigger] b.mask[k] implies clauses[k].holds(
        b.t,
        b.f,
    ) by {
        lemma_holds_mono(clauses[k], st.t, st.f, b.t, b.f);
    }
    assert(b.history.take(st.history.len() as int) =~= st.history);
}

/// What one step of unit propagation guarantees.
pub open spec fn unit_step_ok(
    clauses: Seq<Literals>,
    n: usize,
    i: usize,
    st: Trail,
    changed: bool,
) -> bool {
    match unit_step(clauses[i as int], i, st, changed) {
        None => !satisfiable_under(clauses, st.t, st.f),
        Some((b, raised)) => {
            &&& sound_move(clauses, n, st, b)
            &&& changed ==> raised
            &&& raised && !changed ==> free(n, b.t, b.f) < free(n, st.t, st.f)
            &&& b.mask[i as int] || !clauses[i as int].holds(st.t, st.f)
            &&& !raised ==> {
                &&& b.t == st.t
                &&& b.f == st.f
                &&& b.mask[i as int] || open_clause(clauses[i as int], b.t, b.f)
            }
        },
    }
}

/// A clause whose literals are all made false rules every model out.
proof fn lemma_unit_conflict(clauses: Seq<Literals>, i: usize, st: Trail)
    requires
        i < clauses.len(),
        pending(clauses[i as int].t, st.f).len() == 0,
        pending(clauses[i as int].f, st.t).len() == 0,
    ensures
        !satisfiable_under(clauses, st.t, st.f),
{
    let c = clauses[i as int];
    lemma_pending_none(c.t, st.f);
    lemma_pending_none(c.f, st.t);
    assert forall|m: Set<usize>| is_model(clauses, m) implies !#[trigger] agrees(m, st.t, st.f) by {
        if agrees(m, st.t, st.f) {
            assert(clauses[i as int].holds_complete(m));
            if crate::clause::hits(c.t, m) {
                let j = choose|j: int| 0 <= j < c.t.len() && m.contains(#[trigger] c.t[j]);
                assert(st.f.contains(c.t[j]));
            } else {
                let j = choose|j: int| 0 <= j < c.f.len() && !m.contains(#[trigger] c.f[j]);
                assert(st.t.contains(c.f[j]));
            }
        }
    }
}

/// The variable of a unit clause's last negated literal must be false.
proof fn lemma_unit_false(clauses: Seq<Literals>, n: usize, i: usize, st: Trail)
    requires
        in_range(clauses, n),
        aligned(clauses, st),
        i < clauses.len(),
        !st.mask[i as int],
        !clauses[i as int].holds(st.t, st.f),
        pending(clauses[i as int].t, st.f).len() == 0,
        pending(clauses[i as int].f, st.t).len() == 1,
    ensures
        ({
            let w = pending(clauses[i as int].f, st.t)[0];
            let b = mark(Trail { f: st.f.insert(w), ..st }, i);
            sound_move(clauses, n, st, b) && free(n, b.t, b.f) < free(n, st.t, st.f)
        }),
{
    let c = clauses[i as int];
    let w = pending(c.f, st.t)[0];
    let mid = Trail { f: st.f.insert(w), ..st };
    let b = mark(mid, i);
    lemma_pending_none(c.t, st.f);
    lemma_pending_single(c.f, st.t);
    let j = choose|j: int| 0 <= j < c.f.len() && #[trigger] c.f[j] == w;
    assert(side(c, false)[j] == w);
    assert(!st.f.contains(w)) by {
        if st.f.contains(w) {
            assert(st.f.contains(c.f[j]));
        }
    }
    lemma_assign_aligned(clauses, st, mid);
    assert(c.holds(mid.t, mid.f)) by {
        assert(mid.f.contains(c.f[j]));
    }
    lemma_mark_aligned(clauses, mid, i);
    lemma_grows_trans(st, mid, b);
    lemma_free_strict(n, st.t, st.f, b.t, b.f, w);
    if satisfiable_under(clauses, st.t, st.f) {
        let m = choose|m: Set<usize>| is_model(clauses, m) && #[trigger] agrees(m, st.t, st.f);
        assert(clauses[i as int].holds_complete(m));
        if crate::clause::hits(c.t, m) {
            let k = choose|k: int| 0 <= k < c.t.len() && m.contains(#[trigger] c.t[k]);
            assert(st.f.contains(c.t[k]));
        } else {
            let k = choose|k: int| 0 <= k < c.f.len() && !m.contains(#[trigger] c.f[k]);
            assert(st.t.contains(c.f[k]) || c.f[k] == w);
        }
        assert(!m.contains(w));
        assert(agrees(m, b.t, b.f));
    }
}

/// The variable of a unit clause's last positive literal must be true.
proof fn lemma_unit_true(clauses: Seq<Literals>, n: usize, i: usize, st: Trail)
    requires
        in_range(clauses, n),
        aligned(clauses, st),
        i < clauses.len(),
        !st.mask[i as int],
        !clauses[i as int].holds(st.t, st.f),
        pending(clauses[i as int].t, st.f).len() == 1,
        pending(clauses[i as int].f, st.t).len() == 0,
    ensures
        ({
            let v = pending(clauses[i as int].t, st.f)[0];
            let b = mark(Trail { t: st.t.insert(v), ..st }, i);
            sound_move(clauses, n, st, b) && free(n, b.t, b.f) < free(n, st.t, st.f)
        }),
{
    let c = clauses[i as int];
    let v = pending(c.t, st.f)[0];
    let mid = Trail { t: st.t.insert(v), ..st };
    let b = mark(mid, i);
    lemma_pending_none(c.f, st.t);
    lemma_pending_single(c.t, st.f);
    let j = choose|j: int| 0 <= j < c.t.len() && #[trigger] c.t[j] == v;
    assert(side(c, true)[j] == v);
    assert(!st.t.contains(v)) by {
        if st.t.contains(v) {
            assert(st.t.contains(c.t[j]));
        }
    }
    lemma_assign_aligned(clauses, st, mid);
    assert(c.holds(mid.t, mid.f)) by {
        assert(mid.t.contains(c.t[j]));
    }
    lemma_mark_aligned(clauses, mid, i);
    lemma_grows_trans(st, mid, b);
    lemma_free_strict(n, st.t, st.f, b.t, b.f, v);
    if satisfiable_under(clauses, st.t, st.f) {
        let m = choose|m: Set<usize>| is_model(clauses, m) && #[trigger] agrees(m, st.t, st.f);
        assert(clauses[i as int].holds_complete(m));
        if crate::clause::hits(c.t, m) {
            let k = choose|k: int| 0 <= k < c.t.len() && m.contains(#[trigger] c.t[k]);
            assert(st.f.contains(c.t[k]) || c.t[k] == v);
        } else {
            let k = choose|k: int| 0 <= k < c.f.len() && !m.contains(#[trigger] c.f[k]);
            assert(st.t.contains(c.f[k]));
        }
        assert(m.contains(v));
        assert(agrees(m, b.t, b.f));
    }
}

/// A clause that does not hold and has a pending literal is open.
proof fn lemma_pending_open(c: Literals, t: Set<usize>, f: Set<usize>, positive: bool)
    requires
        !c.holds(t, f),
        pending(side(c, positive), if positive {
            f
        } else {
            t
        }).len() > 0,
    ensures
        open_clause(c, t, f),
{
    let filter = if positive {
        f
    } else {
        t
    };
    lemma_pending_sound(side(c, positive), filter, 0);
    let w = pending(side(c, positive), filter)[0];
    let j = choose|j: int| 0 <= j < side(c, positive).len() && #[trigger] side(c, positive)[j] == w;
    if positive {
        assert(!t.contains(c.t[j]));
    } else {
        assert(!f.contains(c.f[j]));
    }
    assert(!t.contains(side(c, positive)[j]) && !f.contains(side(c, positive)[j]));
}

/// One step of unit propagation keeps its guarantee.
pub proof fn lemma_unit_step(clauses: Seq<Literals>, n: usize, i: usize, st: Trail, changed: bool)
    requires
        in_range(clauses, n),
        aligned(clauses, st),
        i < clauses.len(),
    ensures
        unit_step_ok(clauses, n, i, st, changed),
{
    let c = clauses[i as int];
    assert(st.history.take(st.history.len() as int) =~= st.history);
    if st.mask[i as int] {
    } else if c.holds(st.t, st.f) {
        lemma_mark_aligned(clauses, st, i);
    } else {
        let head = probe(c.t, st.f, 2);
        if head.0 == 0 {
            let tail = probe(c.f, st.t, 2);
            if tail.0 == 0 {
                lemma_unit_conflict(clauses, i, st);
            } else if tail.0 == 1 {
                lemma_unit_false(clauses, n, i, st);
            } else {
                lemma_pending_open(c, st.t, st.f, false);
            }
        } else if head.0 == 1 {
            if probe(c.f, st.t, 1).0 == 0 {
                lemma_unit_true(clauses, n, i, st);
            } else {
                lemma_pending_open(c, st.t, st.f, false);
            }
        } else {
            lemma_pending_open(c, st.t, st.f, true);
        }
    }
}

/// What unit propagation over the first `upto` clauses guarantees.
pub open spec fn unit_pass_ok(clauses: Seq<Literals>, n: usize, upto: nat, st: Trail) -> bool {
    match unit_pass(clauses, upto, st) {
        None => !satisfiable_under(clauses, st.t, st.f),
        Some((b, raised)) => {
            &&& sound_move(clauses, n, st, b)
            &&& raised ==> free(n, b.t, b.f) < free(n, st.t, st.f)
            &&& forall|i: int|
                0 <= i < upto ==> #[trigger] b.mask[i] || !clauses[i].holds(st.t, st.f)
            &&& !raised ==> {
                &&& b.t == st.t
                &&& b.f == st.f
                &&& forall|i: int|
                    0 <= i < upto ==> #[trigger] b.mask[i] || open_clause(clauses[i], b.t, b.f)
            }
        },
    }
}

/// Unit propagation over a prefix of the clauses keeps its guarantee.
pub proof fn lemma_unit_pass(clauses: Seq<Literals>, n: usize, upto: nat, st: Trail)
    requires
        in_range(clauses, n),
        aligned(clauses, st),
        upto <= clauses.len(),
    ensures
        unit_pass_ok(clauses, n, upto, st),
    decreases upto,
{
    if upto == 0 {
        assert(st.history.take(st.history.len() as int) =~= st.history);
    } else {
        let last = (upto - 1) as usize;
        lemma_unit_pass(clauses, n, (upto - 1) as nat, st);
        match unit_pass(clauses, (upto - 1) as nat, st) {
            None => {},
            Some((mid, changed)) => {
                lemma_unit_step(clauses, n, last, mid, changed);
                match unit_step(clauses[last as int], last, mid, changed) {
                    None => {},
                    Some((b, raised)) => {
                        lemma_sound_move_trans(clauses, n, st, mid, b);
                        assert forall|i: int| 0 <= i < upto implies #[trigger] b.mask[i]
                            || !clauses[i].holds(st.t, st.f) by {
                            if i < upto - 1 {
                                assert(mid.mask[i] || !clauses[i].holds(st.t, st.f));
                            } else if clauses[i].holds(st.t, st.f) {
                                lemma_holds_mono(clauses[i], st.t, st.f, mid.t, mid.f);
                            }
                        }
                        if !raised {
                            assert forall|i: int| 0 <= i < upto implies #[trigger] b.mask[i]
                                || open_clause(clauses[i], b.t, b.f) by {
                                if i < upto - 1 {
                                    assert(mid.mask[i] || open_clause(clauses[i], mid.t, mid.f));
                                }
                            }
                        }
                    },
                }
            },
        }
    }
}

/// What one step of the pure-literal sweep guarantees.
pub open spec fn pure_step_ok(
    clauses: Seq<Literals>,
    n: usize,
    st: Trail,
    changed: bool,
    b: Trail,
    raised: bool,
) -> bool {
    &&& sound_move(clauses, n, st, b)
    &&& b.mask == st.mask
    &&& b.history == st.history
    &&& changed ==> raised
    &&& raised && !changed ==> free(n, b.t, b.f) < free(n, st.t, st.f) || lagging(clauses, b)
    &&& !raised ==> b == st
}

/// Making a variable true that no unmarked clause negates keeps the
/// formula satisfiable.
proof fn lemma_pure_true(clauses: Seq<Literals>, st: Trail, v: usize)
    requires
        aligned(clauses, st),
        live(clauses, st.mask, v, false) == 0,
        !st.f.contains(v),
    ensures
        keeps(clauses, st, Trail { t: st.t.insert(v), ..st }),
{
    if satisfiable_under(clauses, st.t, st.f) {
        let m = choose|m: Set<usize>| is_model(clauses, m) && #[trigger] agrees(m, st.t, st.f);
        let m2 = m.insert(v);
        assert(agrees(m2, st.t, st.f));
        assert forall|k: int| 0 <= k < clauses.len() implies (#[trigger] clauses[k]).holds_complete(
            m2,
        ) by {
            let c = clauses[k];
            if st.mask[k] {
                lemma_holds_complete(c, st.t, st.f, m2);
            } else {
                assert(c.holds_complete(m));
                if crate::clause::hits(c.t, m) {
                    let j = choose|j: int| 0 <= j < c.t.len() && m.contains(#[trigger] c.t[j]);
                    assert(m2.contains(c.t[j]));
                } else {
                    let j = choose|j: int| 0 <= j < c.f.len() && !m.contains(#[trigger] c.f[j]);
                    lemma_live_none(clauses, st.mask, v, false, k, j);
                    assert(side(c, false)[j] == c.f[j]);
                    assert(!m2.contains(c.f[j]));
                }
            }
        }
        assert(agrees(m2, st.t.insert(v), st.f));
    }
}

/// Making a variable false that no unmarked clause asserts keeps the
/// formula satisfiable.
proof fn lemma_pure_false(clauses: Seq<Literals>, st: Trail, v: usize)
    requires
        aligned(clauses, st),
        live(clauses, st.mask, v, true) == 0,
        !st.t.contains(v),
    ensures
        keeps(clauses, st, Trail { f: st.f.insert(v), ..st }),
{
    if satisfiable_under(clauses, st.t, st.f) {
        let m = choose|m: Set<usize>| is_model(clauses, m) && #[trigger] agrees(m, st.t, st.f);
        let m2 = m.remove(v);
        assert(agrees(m2, st.t, st.f));
        assert forall|k: int| 0 <= k < clauses.len() implies (#[trigger] clauses[k]).holds_complete(
            m2,
        ) by {
            let c = clauses[k];
            if st.mask[k] {
                lemma_holds_complete(c, st.t, st.f, m2);
            } else {
                assert(c.holds_complete(m));
                if crate::clause::hits(c.t, m) {
                    let j = choose|j: int| 0 <= j < c.t.len() && m.contains(#[trigger] c.t[j]);
                    lemma_live_none(clauses, st.mask, v, true, k, j);
                    assert(side(c, true)[j] == c.t[j]);
                    assert(m2.contains(c.t[j]));
                } else {
                    let j = choose|j: int| 0 <= j < c.f.len() && !m.contains(#[trigger] c.f[j]);
                    assert(!m2.contains(c.f[j]));
                }
            }
        }
        assert(agrees(m2, st.t, st.f.insert(v)));
    }
}

/// A variable that is assigned as its live occurrences ask makes a clause
/// hold that is not marked yet.
proof fn lemma_pure_lagging(clauses: Seq<Literals>, b: Trail, v: usize, positive: bool)
    requires
        live(clauses, b.mask, v, positive) > 0,
        if positive {
            b.t.contains(v)
        } else {
            b.f.contains(v)
        },
    ensures
        lagging(clauses, b),
{
    lemma_live_some(clauses, b.mask, v, positive);
    let (i, j) = choose|i: int, j: int|
        0 <= i < clauses.len() && !b.mask[i] && 0 <= j < side(clauses[i], positive).len()
            && #[trigger] side(clauses[i], positive)[j] == v;
    if positive {
        assert(b.t.contains(clauses[i].t[j]));
    } else {
        assert(b.f.contains(clauses[i].f[j]));
    }
    assert(!b.mask[i] && clauses[i].holds(b.t, b.f));
}

/// One step of the pure-literal sweep keeps its guarantee.
pub proof fn lemma_pure_step(clauses: Seq<Literals>, n: usize, v: usize, st: Trail, changed: bool)
    requires
        aligned(clauses, st),
        1 <= v <= n,
    ensures
        pure_step_ok(
            clauses,
            n,
            st,
            changed,
            pure_step(clauses, v, st, changed).0,
            pure_step(clauses, v, st, changed).1,
        ),
{
    let positive = live(clauses, st.mask, v, true) != 0;
    let negative = live(clauses, st.mask, v, false) != 0;
    let b = pure_step(clauses, v, st, changed).0;
    assert(st.history.take(st.history.len() as int) =~= st.history);
    if positive && !negative && !st.f.contains(v) {
        lemma_assign_aligned(clauses, st, b);
        lemma_pure_true(clauses, st, v);
        if st.t.contains(v) {
            lemma_free_mono(n, st.t, st.f, b.t, b.f);
            lemma_pure_lagging(clauses, b, v, true);
        } else {
            lemma_free_strict(n, st.t, st.f, b.t, b.f, v);
        }
    } else if negative && !positive && !st.t.contains(v) {
        lemma_assign_aligned(clauses, st, b);
        lemma_pure_false(clauses, st, v);
        if st.f.contains(v) {
            lemma_free_mono(n, st.t, st.f, b.t, b.f);
            lemma_pure_lagging(clauses, b, v, false);
        } else {
            lemma_free_strict(n, st.t, st.f, b.t, b.f, v);
        }
    }
}

/// A clause that lags behind an assignment lags behind a larger one.
pub proof fn lemma_lagging_mono(clauses: Seq<Literals>, a: Trail, b: Trail)
    requires
        lagging(clauses, a),
        a.mask == b.mask,
        a.t.subset_of(b.t),
        a.f.subset_of(b.f),
    ensures
        lagging(clauses, b),
{
    let i = choose|i: int|
        0 <= i < clauses.len() && !#[trigger] a.mask[i] && clauses[i].holds(a.t, a.f);
    lemma_holds_mono(clauses[i], a.t, a.f, b.t, b.f);
    assert(!b.mask[i] && clauses[i].holds(b.t, b.f));
}

/// The pure-literal sweep over `1..=upto` keeps the guarantee of a step.
pub proof fn lemma_pure_sweep(clauses: Seq<Literals>, n: usize, upto: usize, st: Trail, changed: bool)
    requires
        aligned(clauses, st),
        upto <= n,
    ensures
        pure_step_ok(
            clauses,
            n,
            st,
            changed,
            pure_sweep(clauses, upto, st, changed).0,
            pure_sweep(clauses, upto, st, changed).1,
        ),
    decreases upto,
{
    if upto == 0 {
        assert(st.history.take(st.history.len() as int) =~= st.history);
    } else {
        lemma_pure_sweep(clauses, n, (upto - 1) as usize, st, changed);
        let mid = pure_sweep(clauses, (upto - 1) as usize, st, changed);
        lemma_pure_step(clauses, n, upto, mid.0, mid.1);
        let b = pure_step(clauses, upto, mid.0, mid.1);
        lemma_sound_move_trans(clauses, n, st, mid.0, b.0);
        if b.1 && !changed && lagging(clauses, mid.0) {
            lemma_lagging_mono(clauses, mid.0, b.0);
        }
    }
}

/// A conflict met on the way ends the pass.
pub proof fn lemma_unit_pass_conflict(clauses: Seq<Literals>, k: nat, upto: nat, st: Trail)
    requires
        k <= upto,
        unit_pass(clauses, k, st) is None,
    ensures
        unit_pass(clauses, upto, st) is None,
    decreases upto,
{
    if k < upto {
        lemma_unit_pass_conflict(clauses, k, (upto - 1) as nat, st);
    }
}

} // verus!
