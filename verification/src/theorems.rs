//! What holds of the search, stated once for all formulas.

use crate::clause::Literals;
use crate::cnf::CNF;
use crate::occurrence::in_range;
use crate::search::chosen;
use crate::search::eligible;
use crate::search::lemma_marked_model;
use crate::search::lemma_search;
use crate::search::search;
use crate::trail::Trail;
use crate::trail::agrees;
use crate::trail::aligned;
use crate::trail::is_model;
use crate::trail::satisfiable_under;
use vstd::prelude::*;

verus! {

/// Soundness: the assignment that the search finds satisfies every
/// clause, makes true what was to be true and false what was to be false.
pub proof fn search_finds_models(clauses: Seq<Literals>, n: usize, st: Trail)
    requires
        in_range(clauses, n),
        aligned(clauses, st),
    ensures
        search(clauses, n, st) is Some ==> is_model(clauses, search(clauses, n, st)->0.t) && agrees(
            search(clauses, n, st)->0.t,
            st.t,
            st.f,
        ),
{
    lemma_search(clauses, n, st);
    match search(clauses, n, st) {
        Some(a) => {
            lemma_marked_model(clauses, a);
        },
        None => {},
    }
}

/// Completeness: the search finds an assignment exactly when some total
/// assignment satisfies the formula and agrees with the given one.
pub proof fn search_finds_iff_satisfiable(clauses: Seq<Literals>, n: usize, st: Trail)
    requires
        in_range(clauses, n),
        aligned(clauses, st),
    ensures
        search(clauses, n, st) is Some <==> satisfiable_under(clauses, st.t, st.f),
{
    lemma_search(clauses, n, st);
    match search(clauses, n, st) {
        Some(a) => {
            lemma_marked_model(clauses, a);
            assert(agrees(a.t, st.t, st.f));
        },
        None => {},
    }
}

/// Determinism: two stores of one formula in which the same clauses were
/// marked in the same order give the same answer to the same question.
/// The answer of `dpll` is a function of the formula, the bookkeeping and
/// the given assignment.
pub proof fn same_formula_same_answer(a: &CNF, b: &CNF, t: Set<usize>, f: Set<usize>)
    requires
        a.wf(),
        b.wf(),
        a.clauses() == b.clauses(),
        a.declared() == b.declared(),
        a.history() == b.history(),
    ensures
        a.answer(t, f) == b.answer(t, f),
{
    a.lemma_history_decides(b);
}

/// The branching choice is determined: no two variables meet its
/// definition at once.
pub proof fn branching_choice_is_unique(
    clauses: Seq<Literals>,
    n: usize,
    st: Trail,
    r: usize,
    s: usize,
)
    requires
        chosen(clauses, n, st, r),
        chosen(clauses, n, st, s),
    ensures
        r == s,
{
    if r != 0 {
        assert(eligible(n, st, r));
    }
    if s != 0 {
        assert(eligible(n, st, s));
    }
}

/// The formula without clauses is satisfied by the assignment that makes
/// no variable true.
pub proof fn empty_formula_holds(clauses: Seq<Literals>)
    requires
        clauses.len() == 0,
    ensures
        is_model(clauses, Set::<usize>::empty()),
        satisfiable_under(clauses, Set::<usize>::empty(), Set::<usize>::empty()),
{
    let none = Set::<usize>::empty();
    assert(is_model(clauses, none) && agrees(none, none, none));
}

/// A formula with an empty clause is satisfied by no assignment, whatever
/// its other clauses are.
pub proof fn empty_clause_fails(clauses: Seq<Literals>, i: int, m: Set<usize>)
    requires
        0 <= i < clauses.len(),
        clauses[i].t.len() == 0,
        clauses[i].f.len() == 0,
    ensures
        !is_model(clauses, m),
{
    assert(!clauses[i].holds_complete(m));
}

} // verus!
