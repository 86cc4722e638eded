//! Sudoku puzzles as formulas: one variable for every cell and digit, with
//! clauses that ask for a digit in every cell and forbid a digit twice in a
//! cell, a row, a column or a block.

use crate::clause::Clause;
use crate::clause::Literals;
use crate::clause::literals;
use crate::cnf::CNF;
use crate::occurrence::blank;
use crate::occurrence::lemma_live_slots;
use crate::occurrence::lemma_slots_push;
use crate::occurrence::side;
use crate::occurrence::slots;
use vstd::arithmetic::div_mod::lemma_fundamental_div_mod;
use vstd::arithmetic::div_mod::lemma_fundamental_div_mod_converse;
use vstd::arithmetic::div_mod::lemma_mod_bound;
use vstd::prelude::*;

verus! {

/// A puzzle with blocks of `size` by `size` cells: `data` holds its
/// `size * size` rows of `size * size` cells one after the other, each cell
/// a digit from 1 on, or 0 where the cell is empty.
pub struct Sudoku {
    pub size: usize,
    pub data: Vec<usize>,
}

/// The four kinds of regions that the clauses speak of. A region is named
/// by a kind and two numbers: a cell by its row and column, and a row, a
/// column or a block by its number and a digit.
#[derive(Clone, Copy)]
pub enum Region {
    Cell,
    Row,
    Column,
    Block,
}

/// The variable that says that the cell in row `r` and column `c` holds
/// the digit `d + 1`, on a board of `n` rows.
pub open spec fn var(n: int, r: int, c: int, d: int) -> int {
    r * n * n + c * n + d + 1
}

/// The `k`-th variable of the region `(i, j)` of a kind.
pub open spec fn entry(size: int, kind: Region, i: int, j: int, k: int) -> int {
    let n = size * size;
    match kind {
        Region::Cell => var(n, i, j, k),
        Region::Row => var(n, i, k, j),
        Region::Column => var(n, k, i, j),
        Region::Block => var(n, i / size * size + k / size, i % size * size + k % size, j),
    }
}

/// The variables of one region: the digits of a cell, or the cells of a
/// row, a column or a block with one digit.
pub open spec fn region(size: int, kind: Region, i: int, j: int) -> Seq<usize> {
    Seq::new((size * size) as nat, |k: int| entry(size, kind, i, j, k) as usize)
}

/// All regions of a kind, `(i, j)` at place `i * n + j`.
pub open spec fn regions(size: int, kind: Region) -> Seq<Seq<usize>> {
    let n = size * size;
    Seq::new((n * n) as nat, |p: int| region(size, kind, p / n, p % n))
}

/// The clause that asks for one of the variables of `x`.
pub open spec fn some_of(x: Seq<usize>) -> Literals {
    Literals { t: x, f: Seq::empty() }
}

/// The clause that forbids `a` and `b` together.
pub open spec fn not_both(a: usize, b: usize) -> Literals {
    Literals { t: Seq::empty(), f: seq![a, b] }
}

/// For every group, the clause that asks for one of its variables.
pub open spec fn every_some(groups: Seq<Seq<usize>>) -> Seq<Literals> {
    Seq::new(groups.len(), |p: int| some_of(groups[p]))
}

/// The clauses that forbid `x[i]` together with each later variable.
pub open spec fn pairs(x: Seq<usize>, i: int) -> Seq<Literals> {
    Seq::new((x.len() - i - 1) as nat, |k: int| not_both(x[i], x[i + 1 + k]))
}

/// The clauses that forbid two variables of `x` together, for the pairs
/// whose first variable is among the first `upto`.
pub open spec fn pairwise(x: Seq<usize>, upto: nat) -> Seq<Literals>
    decreases upto,
{
    if upto == 0 {
        Seq::empty()
    } else {
        pairwise(x, (upto - 1) as nat) + pairs(x, upto - 1)
    }
}

/// For each of the first `upto` groups, the clauses that forbid two of
/// its variables together.
pub open spec fn every_pairwise(groups: Seq<Seq<usize>>, upto: nat) -> Seq<Literals>
    decreases upto,
{
    if upto == 0 {
        Seq::empty()
    } else {
        every_pairwise(groups, (upto - 1) as nat) + pairwise(groups[upto - 1], groups[upto - 1].len())
    }
}

/// The unit clauses of the cells that are filled in, for the first `upto`
/// cells.
pub open spec fn givens(size: int, data: Seq<usize>, upto: nat) -> Seq<Literals>
    decreases upto,
{
    if upto == 0 {
        Seq::empty()
    } else {
        let n = size * size;
        let i = upto - 1;
        let before = givens(size, data, (upto - 1) as nat);
        if data[i] == 0 {
            before
        } else {
            before.push(some_of(seq![var(n, i / n, i % n, data[i] - 1) as usize]))
        }
    }
}

/// The clauses about the regions of one kind.
pub open spec fn rules(size: int, kind: Region) -> Seq<Literals> {
    every_some(regions(size, kind)) + every_pairwise(
        regions(size, kind),
        regions(size, kind).len(),
    )
}

/// The formula of a puzzle: the filled cells, then the clauses about the
/// cells, the rows, the columns and the blocks.
pub open spec fn encoding(size: int, data: Seq<usize>) -> Seq<Literals> {
    givens(size, data, data.len()) + rules(size, Region::Cell) + rules(size, Region::Row) + rules(
        size,
        Region::Column,
    ) + rules(size, Region::Block)
}

/// An upper bound of the number of literals of a formula for a board of
/// `n` rows.
pub open spec fn budget(n: int) -> int {
    n * n + 4 * (n * n * n) + 8 * (n * n * n * n)
}

/// Every variable of every clause lies in `1..=top`.
pub open spec fn bounded(clauses: Seq<Literals>, top: int) -> bool {
    forall|i: int, j: int, positive: bool|
        0 <= i < clauses.len() && 0 <= j < side(clauses[i], positive).len() ==> 1 <= (
        #[trigger] side(clauses[i], positive)[j]) <= top
}

/// The variables of a board of `n` rows lie in `1..=n * n * n`.
proof fn lemma_var_bound(n: int, r: int, c: int, d: int)
    requires
        0 <= r < n,
        0 <= c < n,
        0 <= d < n,
    ensures
        1 <= var(n, r, c, d) <= n * n * n,
        0 <= r * n <= n * n,
        0 <= r * n * n <= n * n * n,
        0 <= c * n <= n * n,
        n * n <= n * n * n,
        r * n * n + c * n <= n * n * n,
{
    assert(0 <= r * n <= (n - 1) * n) by (nonlinear_arith)
        requires
            0 <= r <= n - 1,
            0 <= n,
    ;
    assert(0 <= c * n <= (n - 1) * n) by (nonlinear_arith)
        requires
            0 <= c <= n - 1,
            0 <= n,
    ;
    assert(0 <= r * n * n <= (n - 1) * n * n) by (nonlinear_arith)
        requires
            0 <= r * n <= (n - 1) * n,
            0 <= n,
    ;
    assert((n - 1) * n * n + (n - 1) * n + n == n * n * n) by (nonlinear_arith);
    assert((n - 1) * n + n == n * n) by (nonlinear_arith);
    assert(n * n <= n * n * n) by (nonlinear_arith)
        requires
            1 <= n,
    ;
}

/// The `k`-th cell of block `b` lies on the board.
proof fn lemma_block_cell(size: int, b: int, k: int)
    requires
        0 < size,
        0 <= b < size * size,
        0 <= k < size * size,
    ensures
        0 <= b / size < size,
        0 <= k / size < size,
        0 <= b % size < size,
        0 <= k % size < size,
        0 <= b / size * size <= (size - 1) * size,
        0 <= b % size * size <= (size - 1) * size,
        0 <= b / size * size + k / size < size * size,
        0 <= b % size * size + k % size < size * size,
{
    lemma_fundamental_div_mod(b, size);
    lemma_fundamental_div_mod(k, size);
    lemma_mod_bound(b, size);
    lemma_mod_bound(k, size);
    let q = b / size;
    let p = k / size;
    assert(0 <= q < size) by (nonlinear_arith)
        requires
            b == size * q + b % size,
            0 <= b % size < size,
            0 <= b < size * size,
            0 < size,
    ;
    assert(0 <= p < size) by (nonlinear_arith)
        requires
            k == size * p + k % size,
            0 <= k % size < size,
            0 <= k < size * size,
            0 < size,
    ;
    assert(0 <= q * size <= (size - 1) * size) by (nonlinear_arith)
        requires
            0 <= q <= size - 1,
            0 < size,
    ;
    let m = b % size;
    assert(0 <= m * size <= (size - 1) * size) by (nonlinear_arith)
        requires
            0 <= m <= size - 1,
            0 < size,
    ;
    assert((size - 1) * size + size == size * size) by (nonlinear_arith);
}

/// The variables of every region lie in `1..=n * n * n`.
proof fn lemma_entry_bound(size: int, kind: Region, i: int, j: int, k: int)
    requires
        0 <= size,
        0 <= i < size * size,
        0 <= j < size * size,
        0 <= k < size * size,
    ensures
        1 <= entry(size, kind, i, j, k) <= (size * size) * (size * size) * (size * size),
{
    let n = size * size;
    assert(size > 0) by (nonlinear_arith)
        requires
            0 <= size,
            0 < size * size,
    ;
    match kind {
        Region::Cell => lemma_var_bound(n, i, j, k),
        Region::Row => lemma_var_bound(n, i, k, j),
        Region::Column => lemma_var_bound(n, k, i, j),
        Region::Block => {
            lemma_block_cell(size, i, k);
            lemma_var_bound(n, i / size * size + k / size, i % size * size + k % size, j);
        },
    }
}

/// The variable of the cell `(r, c)` and the digit `d + 1`.
fn cell_var(n: usize, r: usize, c: usize, d: usize) -> (v: usize)
    requires
        r < n,
        c < n,
        d < n,
        n * n * n < usize::MAX,
    ensures
        v == var(n as int, r as int, c as int, d as int),
        1 <= v <= n * n * n,
{
    proof {
        lemma_var_bound(n as int, r as int, c as int, d as int);
    }
    r * n * n + c * n + d + 1
}

/// The variables of the region `(i, j)` of a kind.
fn region_of(size: usize, kind: Region, i: usize, j: usize) -> (x: Vec<usize>)
    requires
        size * size <= usize::MAX,
        (size * size) * (size * size) * (size * size) < usize::MAX,
        i < size * size,
        j < size * size,
    ensures
        x@ == region(size as int, kind, i as int, j as int),
        forall|k: int| 0 <= k < x@.len() ==> 1 <= #[trigger] x@[k] <= (size * size) * (size * size) * (
        size * size),
{
    let n = size * size;
    let mut x: Vec<usize> = Vec::new();
    let mut k: usize = 0;
    while k < n
        invariant
            k <= n,
            n == size * size,
            i < n,
            j < n,
            n * n * n < usize::MAX,
            x@.len() == k,
            forall|q: int|
                0 <= q < k ==> #[trigger] x@[q] == entry(size as int, kind, i as int, j as int, q),
            forall|q: int| 0 <= q < k ==> 1 <= #[trigger] x@[q] <= n * n * n,
        decreases n - k,
    {
        proof {
            lemma_entry_bound(size as int, kind, i as int, j as int, k as int);
        }
        let v = match kind {
            Region::Cell => cell_var(n, i, j, k),
            Region::Row => cell_var(n, i, k, j),
            Region::Column => cell_var(n, k, i, j),
            Region::Block => {
                proof {
                    assert(size > 0) by (nonlinear_arith)
                        requires
                            0 < size * size,
                    ;
                    lemma_block_cell(size as int, i as int, k as int);
                }
                cell_var(n, i / size * size + k / size, i % size * size + k % size, j)
            },
        };
        x.push(v);
        k += 1;
    }
    proof {
        assert(x@ =~= region(size as int, kind, i as int, j as int));
    }
    x
}

/// The groups of a vector of vectors as sequences.
pub open spec fn views(groups: Seq<Vec<usize>>) -> Seq<Seq<usize>> {
    Seq::new(groups.len(), |p: int| groups[p]@)
}

/// Every group has `width` variables, all of them in `1..=top`.
pub open spec fn uniform(groups: Seq<Vec<usize>>, width: int, top: int) -> bool {
    forall|p: int|
        0 <= p < groups.len() ==> (#[trigger] groups[p])@.len() == width && forall|k: int|
            0 <= k < groups[p]@.len() ==> 1 <= #[trigger] groups[p]@[k] <= top
}

/// All regions of a kind, in the order of `regions`.
fn collect(size: usize, kind: Region) -> (groups: Vec<Vec<usize>>)
    requires
        size * size <= usize::MAX,
        (size * size) * (size * size) * (size * size) < usize::MAX,
    ensures
        views(groups@) == regions(size as int, kind),
        groups@.len() == (size * size) * (size * size),
        uniform(groups@, size * size, (size * size) * (size * size) * (size * size)),
{
    let n = size * size;
    let mut groups: Vec<Vec<usize>> = Vec::new();
    let mut i: usize = 0;
    while i < n
        invariant
            i <= n,
            n == size * size,
            n * n * n < usize::MAX,
            groups@.len() == i * n,
            uniform(groups@, n as int, n * n * n),
            forall|p: int|
                0 <= p < groups@.len() ==> (#[trigger] groups@[p])@ == region(
                    size as int,
                    kind,
                    p / (n as int),
                    p % (n as int),
                ),
        decreases n - i,
    {
        let mut j: usize = 0;
        while j < n
            invariant
                i < n,
                j <= n,
                n == size * size,
                n * n * n < usize::MAX,
                groups@.len() == i * n + j,
                uniform(groups@, n as int, n * n * n),
                forall|p: int|
                    0 <= p < groups@.len() ==> (#[trigger] groups@[p])@ == region(
                        size as int,
                        kind,
                        p / (n as int),
                        p % (n as int),
                    ),
            decreases n - j,
        {
            let x = region_of(size, kind, i, j);
            proof {
                lemma_fundamental_div_mod_converse(i * n + j, n as int, i as int, j as int);
            }
            groups.push(x);
            j += 1;
        }
        proof {
            assert(i * n + n == (i + 1) * n) by (nonlinear_arith);
        }
        i += 1;
    }
    proof {
        assert(views(groups@) =~= regions(size as int, kind));
    }
    groups
}

/// Adding clauses to a formula adds their literals.
proof fn lemma_slots_concat(a: Seq<Literals>, b: Seq<Literals>)
    ensures
        slots(a + b) == slots(a) + slots(b),
    decreases b.len(),
{
    if b.len() == 0 {
        assert(a + b =~= a);
    } else {
        lemma_slots_concat(a, b.drop_last());
        assert((a + b).drop_last() =~= a + b.drop_last());
    }
}

/// For every group, the clause that asks for one of its variables.
fn at_least_one(d: &Vec<Vec<usize>>, Ghost(width): Ghost<int>, Ghost(top): Ghost<int>) -> (r: Vec<
    Clause,
>)
    requires
        uniform(d@, width, top),
    ensures
        literals(r@) == every_some(views(d@)),
        bounded(literals(r@), top),
        slots(literals(r@)) == d@.len() * width,
{
    let mut r: Vec<Clause> = Vec::new();
    let mut p: usize = 0;
    while p < d.len()
        invariant
            p <= d@.len(),
            uniform(d@, width, top),
            r@.len() == p,
            forall|q: int| 0 <= q < p ==> (#[trigger] r@[q])@ == some_of(d@[q]@),
            bounded(literals(r@), top),
            slots(literals(r@)) == p * width,
        decreases d@.len() - p,
    {
        let x = d[p].clone();
        let c = Clause { t: x, f: Vec::new() };
        proof {
            assert(c.t@ =~= d@[p as int]@);
            assert(literals(r@.push(c)) =~= literals(r@).push(c@));
                lemma_slots_push(literals(r@), c@);
            assert(p * width + width == (p + 1) * width) by (nonlinear_arith);
            let grown = literals(r@.push(c));
            assert forall|i: int, j: int, positive: bool|
                0 <= i < grown.len() && 0 <= j < side(grown[i], positive).len() implies 1 <= (
            #[trigger] side(grown[i], positive)[j]) <= top by {
                if i < r@.len() {
                    assert(side(literals(r@)[i], positive)[j] <= top);
                } else {
                    assert(d@[p as int]@[j] <= top);
                }
            }
        }
        r.push(c);
        p += 1;
    }
    proof {
        assert(literals(r@) =~= every_some(views(d@)));
    }
    r
}

/// For every group, the clauses that forbid two of its variables together.
fn at_most_one(d: &Vec<Vec<usize>>, Ghost(width): Ghost<int>, Ghost(top): Ghost<int>) -> (r: Vec<
    Clause,
>)
    requires
        uniform(d@, width, top),
    ensures
        literals(r@) == every_pairwise(views(d@), d@.len()),
        bounded(literals(r@), top),
        slots(literals(r@)) <= 2 * (d@.len() * width * width),
{
    let mut r: Vec<Clause> = Vec::new();
    let mut p: usize = 0;
    while p < d.len()
        invariant
            p <= d@.len(),
            uniform(d@, width, top),
            literals(r@) == every_pairwise(views(d@), p as nat),
            bounded(literals(r@), top),
            slots(literals(r@)) <= 2 * (p * width * width),
        decreases d@.len() - p,
    {
        let x = &d[p];
        let ghost base = r@;
        let mut i: usize = 0;
        while i < x.len()
            invariant
                p < d@.len(),
                x == &d@[p as int],
                x@.len() == width,
                forall|k: int| 0 <= k < x@.len() ==> 1 <= #[trigger] x@[k] <= top,
                i <= x@.len(),
                literals(r@) == literals(base) + pairwise(x@, i as nat),
                bounded(literals(r@), top),
                slots(literals(r@)) <= slots(literals(base)) + 2 * (i * width),
            decreases x@.len() - i,
        {
            let ghost row = r@;
            let mut j: usize = i + 1;
            while j < x.len()
                invariant
                    i < x@.len(),
                    i + 1 <= j <= x@.len(),
                    x@.len() == width,
                    forall|k: int| 0 <= k < x@.len() ==> 1 <= #[trigger] x@[k] <= top,
                    r@.len() == row.len() + (j - i - 1),
                    forall|q: int| 0 <= q < row.len() ==> r@[q] == row[q],
                    forall|q: int|
                        0 <= q < j - i - 1 ==> (#[trigger] r@[row.len() + q])@ == not_both(
                            x@[i as int],
                            x@[i + 1 + q],
                        ),
                    bounded(literals(r@), top),
                    slots(literals(r@)) == slots(literals(row)) + 2 * (j - i - 1),
                decreases x@.len() - j,
            {
                let mut pair: Vec<usize> = Vec::new();
                pair.push(x[i]);
                pair.push(x[j]);
                let c = Clause { t: Vec::new(), f: pair };
                proof {
                    assert(c.f@ =~= seq![x@[i as int], x@[j as int]]);
                    assert(literals(r@.push(c)) =~= literals(r@).push(c@));
                lemma_slots_push(literals(r@), c@);
                    let grown = literals(r@.push(c));
                    assert forall|a: int, b: int, positive: bool|
                        0 <= a < grown.len() && 0 <= b < side(grown[a], positive).len() implies 1
                        <= (#[trigger] side(grown[a], positive)[b]) <= top by {
                        if a < r@.len() {
                            assert(side(literals(r@)[a], positive)[b] <= top);
                        } else {
                            assert(x@[i as int] <= top);
                            assert(x@[j as int] <= top);
                        }
                    }
                }
                r.push(c);
                j += 1;
            }
            proof {
                let joined = literals(row) + pairs(x@, i as int);
                assert(literals(r@).len() == joined.len());
                assert forall|k: int| 0 <= k < joined.len() implies literals(r@)[k]
                    == joined[k] by {
                    if k < row.len() {
                        assert(r@[k] == row[k]);
                    } else {
                        let q = k - row.len();
                        assert(r@[row.len() + q]@ == not_both(x@[i as int], x@[i + 1 + q]));
                    }
                }
                assert(literals(r@) =~= joined);
                assert(literals(r@) =~= literals(base) + pairwise(x@, (i + 1) as nat));
                assert(2 * (i * width) + 2 * (x@.len() - i - 1) <= 2 * ((i + 1) * width))
                    by (nonlinear_arith)
                    requires
                        x@.len() == width,
                        0 <= i,
                ;
            }
            i += 1;
        }
        proof {
            assert(views(d@)[p as int] == x@);
            assert(literals(r@) =~= every_pairwise(views(d@), (p + 1) as nat));
            assert(2 * (p * width * width) + 2 * (width * width) == 2 * ((p + 1) * width * width))
                by (nonlinear_arith);
        }
        p += 1;
    }
    r
}

/// The concatenation of two formulas keeps their variables in range.
proof fn lemma_bounded_concat(a: Seq<Literals>, b: Seq<Literals>, top: int)
    requires
        bounded(a, top),
        bounded(b, top),
    ensures
        bounded(a + b, top),
{
    let joined = a + b;
    assert forall|i: int, j: int, positive: bool|
        0 <= i < joined.len() && 0 <= j < side(joined[i], positive).len() implies 1 <= (
    #[trigger] side(joined[i], positive)[j]) <= top by {
        if i < a.len() {
            assert(side(a[i], positive)[j] <= top);
        } else {
            assert(side(b[i - a.len()], positive)[j] <= top);
        }
    }
}

/// The clauses of two formulas one after the other.
proof fn lemma_literals_concat(a: Seq<Clause>, b: Seq<Clause>)
    ensures
        literals(a + b) == literals(a) + literals(b),
{
    assert(literals(a + b) =~= literals(a) + literals(b));
}

/// The unit clauses of the cells that are filled in.
fn digits(size: usize, data: &Vec<usize>) -> (r: Vec<Clause>)
    requires
        size * size <= usize::MAX,
        (size * size) * (size * size) * (size * size) < usize::MAX,
        data@.len() == (size * size) * (size * size),
        forall|i: int| 0 <= i < data@.len() ==> #[trigger] data@[i] <= size * size,
    ensures
        literals(r@) == givens(size as int, data@, data@.len()),
        bounded(literals(r@), (size * size) * (size * size) * (size * size)),
        slots(literals(r@)) <= data@.len(),
{
    let n = size * size;
    let mut r: Vec<Clause> = Vec::new();
    let mut i: usize = 0;
    while i < data.len()
        invariant
            i <= data@.len(),
            n == size * size,
            n * n * n < usize::MAX,
            data@.len() == n * n,
            forall|k: int| 0 <= k < data@.len() ==> #[trigger] data@[k] <= n,
            literals(r@) == givens(size as int, data@, i as nat),
            bounded(literals(r@), n * n * n),
            slots(literals(r@)) <= i,
        decreases data@.len() - i,
    {
        let d = data[i];
        if d != 0 {
            proof {
                assert(n > 0) by (nonlinear_arith)
                    requires
                        i < n * n,
                ;
                lemma_block_cell(n as int, i as int, i as int);
            }
            let v = cell_var(n, i / n, i % n, d - 1);
            let mut unit: Vec<usize> = Vec::new();
            unit.push(v);
            let c = Clause { t: unit, f: Vec::new() };
            proof {
                assert(c.t@ =~= seq![v]);
                assert(c@ == some_of(seq![v]));
                assert(literals(r@.push(c)) =~= literals(r@).push(c@));
                lemma_slots_push(literals(r@), c@);
                let grown = literals(r@.push(c));
                assert forall|a: int, b: int, positive: bool|
                    0 <= a < grown.len() && 0 <= b < side(grown[a], positive).len() implies 1 <= (
                #[trigger] side(grown[a], positive)[b]) <= n * n * n by {
                    if a < r@.len() {
                        assert(side(literals(r@)[a], positive)[b] <= n * n * n);
                    }
                }
                
            }
            r.push(c);
        }
        i += 1;
    }
    r
}

/// Appends the clauses about the regions of one kind.
fn append_rules(o: &mut Vec<Clause>, size: usize, kind: Region)
    requires
        size * size <= usize::MAX,
        (size * size) * (size * size) * (size * size) < usize::MAX,
        bounded(literals(old(o)@), (size * size) * (size * size) * (size * size)),
    ensures
        literals(final(o)@) == literals(old(o)@) + rules(size as int, kind),
        bounded(literals(final(o)@), (size * size) * (size * size) * (size * size)),
        slots(literals(final(o)@)) <= slots(literals(old(o)@)) + (size * size) * (size * size) * (
        size * size) + 2 * ((size * size) * (size * size) * (size * size) * (size * size)),
{
    let ghost w = (size * size) as int;
    let ghost top = w * w * w;
    let groups = collect(size, kind);
    let mut some = at_least_one(&groups, Ghost(w), Ghost(top));
    let mut pairs = at_most_one(&groups, Ghost(w), Ghost(top));
    proof {
        lemma_literals_concat(o@, some@);
        lemma_literals_concat(o@ + some@, pairs@);
        lemma_bounded_concat(literals(o@), literals(some@), top);
        lemma_slots_concat(literals(o@), literals(some@));
        lemma_bounded_concat(literals(o@) + literals(some@), literals(pairs@), top);
        lemma_slots_concat(literals(o@) + literals(some@), literals(pairs@));
        assert(groups@.len() * w == w * w * w) by (nonlinear_arith)
            requires
                groups@.len() == w * w,
        ;
        assert(groups@.len() * w * w == w * w * w * w) by (nonlinear_arith)
            requires
                groups@.len() == w * w,
        ;
        assert(literals(o@) + literals(some@) + literals(pairs@) =~= literals(o@) + (literals(
            some@,
        ) + literals(pairs@)));
    }
    o.append(&mut some);
    o.append(&mut pairs);
}

impl Sudoku {
    /// The number of rows of the board.
    pub open spec fn rows(&self) -> int {
        self.size * self.size
    }

    /// The puzzle can be encoded: the board is complete, no cell holds a
    /// digit beyond the number of rows, and the literals of the formula
    /// can be counted in a `usize`.
    pub open spec fn encodable(&self) -> bool {
        &&& self.data@.len() == self.rows() * self.rows()
        &&& forall|i: int| 0 <= i < self.data@.len() ==> #[trigger] self.data@[i] <= self.rows()
        &&& budget(self.rows()) <= usize::MAX
    }

    /// Whether the puzzle can be encoded.
    pub fn is_encodable(&self) -> (b: bool)
        ensures
            b == self.encodable(),
    {
        let ghost m = self.rows();
        proof {
            assert(0 <= m && 0 <= m * m && 0 <= m * m * m && 0 <= m * m * m * m)
                by (nonlinear_arith)
                requires
                    m == self.size * self.size,
            ;
            assert(m <= m * m) by (nonlinear_arith)
                requires
                    0 <= m,
            ;
        }
        let n = match self.size.checked_mul(self.size) {
            Some(n) => n,
            None => {
                return false;
            },
        };
        let square = match n.checked_mul(n) {
            Some(v) => v,
            None => {
                return false;
            },
        };
        let cube = match square.checked_mul(n) {
            Some(v) => v,
            None => {
                return false;
            },
        };
        let fourth = match cube.checked_mul(n) {
            Some(v) => v,
            None => {
                return false;
            },
        };
        let cubes = match cube.checked_mul(4) {
            Some(v) => v,
            None => {
                return false;
            },
        };
        let fourths = match fourth.checked_mul(8) {
            Some(v) => v,
            None => {
                return false;
            },
        };
        let sum = match square.checked_add(cubes) {
            Some(v) => v,
            None => {
                return false;
            },
        };
        if sum.checked_add(fourths).is_none() {
            return false;
        }
        if self.data.len() != square {
            return false;
        }
        let mut i: usize = 0;
        while i < self.data.len()
            invariant
                i <= self.data@.len(),
                n == self.rows(),
                forall|k: int| 0 <= k < i ==> #[trigger] self.data@[k] <= n,
            decreases self.data@.len() - i,
        {
            if self.data[i] > n {
                return false;
            }
            i += 1;
        }
        true
    }

    /// The store of the puzzle's formula, over one variable for every row,
    /// column and digit: first the unit clauses of the filled cells; then,
    /// for the cells, the rows, the columns and the blocks in turn, the
    /// clauses that ask for at least one and those that forbid two.
    pub fn to_cnf(self) -> (cnf: CNF)
        requires
            self.encodable(),
        ensures
            cnf.wf(),
            cnf.declared() == self.rows() * self.rows() * self.rows(),
            cnf.clauses() == encoding(self.size as int, self.data@),
            cnf.mask() == blank(cnf.clauses().len()),
            cnf.history() == Seq::<usize>::empty(),
    {
        let size = self.size;
        let ghost m = self.rows();
        proof {
            assert(0 <= m <= m * m <= m * m * m <= m * m * m * m && (m > 0 ==> 4 * (m * m * m)
                > m * m * m)) by (nonlinear_arith)
                requires
                    m == size * size,
            ;
        }
        let n = size * size;
        let top = n * n * n;
        let mut o = digits(size, &self.data);
        let ghost given = slots(literals(o@));
        append_rules(&mut o, size, Region::Cell);
        append_rules(&mut o, size, Region::Row);
        append_rules(&mut o, size, Region::Column);
        append_rules(&mut o, size, Region::Block);
        proof {
            let cls = literals(o@);
            let cube = m * m * m;
            let fourth = m * m * m * m;
            assert(slots(cls) <= given + 4 * cube + 8 * fourth);
            assert(slots(cls) <= budget(m));
            assert forall|v: usize| v <= top implies #[trigger] crate::occurrence::live(
                cls,
                blank(cls.len()),
                v,
                true,
            ) + crate::occurrence::live(cls, blank(cls.len()), v, false) <= usize::MAX by {
                lemma_live_slots(cls, blank(cls.len()), v);
            }
            assert(crate::occurrence::in_range(cls, top)) by {
                assert forall|i: int, j: int, positive: bool|
                    0 <= i < cls.len() && 0 <= j < side(cls[i], positive).len() implies 1 <= (
                #[trigger] side(cls[i], positive)[j]) <= top by {
                    assert(side(cls[i], positive)[j] <= m * m * m);
                }
            }
        }
        CNF::new(o, top)
    }
}

} // verus!
