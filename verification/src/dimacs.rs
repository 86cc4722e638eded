//! Formulas as text: one clause a line, as signed integers that end with 0.
//! Reading takes the bytes of a whole input; writing gives the bytes of one.

use crate::clause::Clause;
use crate::clause::Literals;
use crate::clause::literals;
use crate::cnf::CNF;
use crate::occurrence::blank;
use vstd::prelude::*;

verus! {

/// Why an input was not read.
#[derive(Clone, Copy, Debug, PartialEq, Eq)]
pub enum ReadError {
    /// A line without any token.
    EmptyLine,
    /// A token of a clause line, before the closing 0, that is not an
    /// integer whose magnitude a 32-bit signed integer holds.
    BadToken,
    /// A `p` line without a third token, or whose third token is not an
    /// unsigned integer that a `usize` holds.
    BadHeader,
    /// The clauses cannot be stored with the declared number of
    /// variables: a variable beyond that number, or too many occurrences.
    OutOfRange,
}

/// The bytes that separate tokens: space, tab, line feed, vertical tab,
/// form feed and carriage return.
pub open spec fn is_space(b: u8) -> bool {
    b == 32 || (9 <= b && b <= 13)
}

/// The bytes `0` to `9`.
pub open spec fn is_digit(b: u8) -> bool {
    48 <= b && b <= 57
}

/// The lines read so far that a line feed has closed, and the bytes of the
/// line that is still open.
pub open spec fn scan_lines(s: Seq<u8>) -> (Seq<Seq<u8>>, Seq<u8>)
    decreases s.len(),
{
    if s.len() == 0 {
        (Seq::empty(), Seq::empty())
    } else {
        let before = scan_lines(s.drop_last());
        if s.last() == 10 {
            (before.0.push(before.1), Seq::empty())
        } else {
            (before.0, before.1.push(s.last()))
        }
    }
}

/// The lines of an input: the bytes between line feeds. A line feed at the
/// very end opens no further line.
pub open spec fn lines(s: Seq<u8>) -> Seq<Seq<u8>> {
    let scanned = scan_lines(s);
    if scanned.1.len() > 0 {
        scanned.0.push(scanned.1)
    } else {
        scanned.0
    }
}

/// The tokens read so far that a separator has closed, and the bytes of
/// the token that is still open.
pub open spec fn scan_words(s: Seq<u8>) -> (Seq<Seq<u8>>, Seq<u8>)
    decreases s.len(),
{
    if s.len() == 0 {
        (Seq::empty(), Seq::empty())
    } else {
        let before = scan_words(s.drop_last());
        if !is_space(s.last()) {
            (before.0, before.1.push(s.last()))
        } else if before.1.len() > 0 {
            (before.0.push(before.1), Seq::empty())
        } else {
            before
        }
    }
}

/// The tokens of a line: its longest runs of bytes that are no separators.
pub open spec fn words(s: Seq<u8>) -> Seq<Seq<u8>> {
    let scanned = scan_words(s);
    if scanned.1.len() > 0 {
        scanned.0.push(scanned.1)
    } else {
        scanned.0
    }
}

/// The byte strings of a vector of byte vectors.
pub open spec fn texts(v: Seq<Vec<u8>>) -> Seq<Seq<u8>> {
    Seq::new(v.len(), |i: int| v[i]@)
}

/// Every byte is a digit.
pub open spec fn all_digits(w: Seq<u8>) -> bool {
    forall|i: int| 0 <= i < w.len() ==> is_digit(#[trigger] w[i])
}

/// The number that a string of digits writes in base ten.
pub open spec fn value(w: Seq<u8>) -> nat
    decreases w.len(),
{
    if w.len() == 0 {
        0
    } else {
        value(w.drop_last()) * 10 + (w.last() - 48) as nat
    }
}

/// The number that a token writes without a sign: one digit or more.
pub open spec fn plain_number(w: Seq<u8>) -> Option<nat> {
    if w.len() > 0 && all_digits(w) {
        Some(value(w))
    } else {
        None
    }
}

/// The number that a token writes as an unsigned integer: digits, with
/// `+` before them or not.
pub open spec fn unsigned_number(w: Seq<u8>) -> Option<nat> {
    if w.len() > 0 && w[0] == 43 {
        plain_number(w.skip(1))
    } else {
        plain_number(w)
    }
}

/// The number that a token writes as a signed integer: digits, with `+`
/// or `-` before them or not.
pub open spec fn signed_number(w: Seq<u8>) -> Option<int> {
    if w.len() > 0 && w[0] == 45 {
        match plain_number(w.skip(1)) {
            Some(v) => Some(-(v as int)),
            None => None,
        }
    } else {
        match unsigned_number(w) {
            Some(v) => Some(v as int),
            None => None,
        }
    }
}

/// The number written by the digits of `w` from `from` on, where it is at
/// most `limit`.
fn plain(w: &Vec<u8>, from: usize, limit: usize) -> (r: Option<usize>)
    requires
        from <= w@.len(),
    ensures
        r == match plain_number(w@.skip(from as int)) {
            Some(v) => if v <= limit {
                Some(v as usize)
            } else {
                None
            },
            None => None,
        },
{
    let ghost rest = w@.skip(from as int);
    if from == w.len() {
        return None;
    }
    let bound: u128 = limit as u128;
    let mut acc: u128 = 0;
    let mut over = false;
    let mut k: usize = from;
    while k < w.len()
        invariant
            from <= k <= w@.len(),
            rest == w@.skip(from as int),
            bound == limit,
            all_digits(rest.take(k - from)),
            !over ==> acc == value(rest.take(k - from)) && acc <= bound,
            over ==> value(rest.take(k - from)) > limit,
        decreases w@.len() - k,
    {
        let b = w[k];
        proof {
            assert(rest[k - from] == b);
            assert(rest.take(k - from + 1).drop_last() =~= rest.take(k - from));
        }
        if b < 48 || b > 57 {
            proof {
                assert(!is_digit(rest[k - from]));
            }
            return None;
        }
        proof {
            let longer = rest.take(k - from + 1);
            assert forall|i: int| 0 <= i < longer.len() implies is_digit(#[trigger] longer[i]) by {
                if i < k - from {
                    assert(is_digit(rest.take(k - from)[i]));
                }
            }
        }
        if !over {
            acc = acc * 10 + (b - 48) as u128;
            if acc > bound {
                over = true;
            }
        }
        k += 1;
    }
    proof {
        assert(rest.take(k - from) =~= rest);
    }
    if over {
        None
    } else {
        Some(acc as usize)
    }
}

/// The unsigned integer that a token writes, where a `usize` holds it.
fn parse_count(w: &Vec<u8>) -> (r: Option<usize>)
    ensures
        r == match unsigned_number(w@) {
            Some(v) => if v <= usize::MAX {
                Some(v as usize)
            } else {
                None
            },
            None => None,
        },
{
    if w.len() > 0 && w[0] == 43 {
        plain(w, 1, usize::MAX)
    } else {
        proof {
            assert(w@.skip(0) =~= w@);
        }
        plain(w, 0, usize::MAX)
    }
}

/// The greatest magnitude of a literal: that of a 32-bit signed integer.
pub open spec fn literal_limit() -> int {
    0x7fff_ffff
}

/// The literal that a token writes: whether it is negated, and its
/// variable; where the magnitude is within the limit.
fn parse_literal(w: &Vec<u8>) -> (r: Option<(bool, usize)>)
    ensures
        r == match signed_number(w@) {
            Some(v) => if -literal_limit() <= v <= literal_limit() {
                Some((w@[0] == 45, (if v < 0 {
                    -v
                } else {
                    v
                }) as usize))
            } else {
                None
            },
            None => None,
        },
{
    if w.len() > 0 && w[0] == 45 {
        match plain(w, 1, 0x7fff_ffff) {
            Some(v) => Some((true, v)),
            None => None,
        }
    } else if w.len() > 0 && w[0] == 43 {
        match plain(w, 1, 0x7fff_ffff) {
            Some(v) => Some((false, v)),
            None => None,
        }
    } else {
        proof {
            assert(w@.skip(0) =~= w@);
        }
        match plain(w, 0, 0x7fff_ffff) {
            Some(v) => Some((false, v)),
            None => None,
        }
    }
}

/// The lines of an input.
fn split_lines(source: &[u8]) -> (r: Vec<Vec<u8>>)
    ensures
        texts(r@) == lines(source@),
{
    let mut done: Vec<Vec<u8>> = Vec::new();
    let mut cur: Vec<u8> = Vec::new();
    let mut i: usize = 0;
    while i < source.len()
        invariant
            i <= source@.len(),
            (texts(done@), cur@) == scan_lines(source@.take(i as int)),
        decreases source@.len() - i,
    {
        let b = source[i];
        proof {
            assert(source@.take(i + 1).drop_last() =~= source@.take(i as int));
        }
        if b == 10 {
            proof {
                assert(texts(done@.push(cur)) =~= texts(done@).push(cur@));
            }
            done.push(cur);
            cur = Vec::new();
        } else {
            cur.push(b);
        }
        i += 1;
    }
    proof {
        assert(source@.take(i as int) =~= source@);
    }
    if cur.len() > 0 {
        proof {
            assert(texts(done@.push(cur)) =~= texts(done@).push(cur@));
        }
        done.push(cur);
    }
    done
}

/// The tokens of a line.
fn split_words(line: &Vec<u8>) -> (r: Vec<Vec<u8>>)
    ensures
        texts(r@) == words(line@),
{
    let mut done: Vec<Vec<u8>> = Vec::new();
    let mut cur: Vec<u8> = Vec::new();
    let mut i: usize = 0;
    while i < line.len()
        invariant
            i <= line@.len(),
            (texts(done@), cur@) == scan_words(line@.take(i as int)),
        decreases line@.len() - i,
    {
        let b = line[i];
        proof {
            assert(line@.take(i + 1).drop_last() =~= line@.take(i as int));
        }
        if !(b == 32 || (9 <= b && b <= 13)) {
            cur.push(b);
        } else if cur.len() > 0 {
            proof {
                assert(texts(done@.push(cur)) =~= texts(done@).push(cur@));
            }
            done.push(cur);
            cur = Vec::new();
        }
        i += 1;
    }
    proof {
        assert(line@.take(i as int) =~= line@);
    }
    if cur.len() > 0 {
        proof {
            assert(texts(done@.push(cur)) =~= texts(done@).push(cur@));
        }
        done.push(cur);
    }
    done
}

/// The clause that the first `upto` tokens of a line write, and whether
/// its closing 0 was met: each token before the 0 adds its variable to
/// the positive bag or, under a minus sign, to the negated bag; what
/// follows the 0 is not read. `None` where a token that is read is no
/// integer within the limit.
pub open spec fn gather(ws: Seq<Seq<u8>>, upto: nat) -> Option<(Literals, bool)>
    decreases upto,
{
    if upto == 0 {
        Some((Literals { t: Seq::empty(), f: Seq::empty() }, false))
    } else {
        match gather(ws, (upto - 1) as nat) {
            None => None,
            Some((c, closed)) => if closed {
                Some((c, true))
            } else {
                match signed_number(ws[upto - 1]) {
                    None => None,
                    Some(v) => if v < -literal_limit() || v > literal_limit() {
                        None
                    } else if v == 0 {
                        Some((c, true))
                    } else if v > 0 {
                        Some((Literals { t: c.t.push(v as usize), ..c }, false))
                    } else {
                        Some((Literals { f: c.f.push((-v) as usize), ..c }, false))
                    },
                }
            },
        }
    }
}

/// What has been read of an input: the clauses, and the number of
/// variables that the last `p` line declared (0 where there was none).
pub struct Problem {
    pub clauses: Seq<Literals>,
    pub n: usize,
}

/// The token that is the one byte `b`.
pub open spec fn is_letter(w: Seq<u8>, b: u8) -> bool {
    w.len() == 1 && w[0] == b
}

/// What one line adds. A line whose first token is `c` adds nothing; one
/// whose first token is `p` declares, with its third token, the number
/// of variables; every other line is a clause.
pub open spec fn read_line(line: Seq<u8>, acc: Problem) -> Result<Problem, ReadError> {
    let ws = words(line);
    if ws.len() == 0 {
        Err(ReadError::EmptyLine)
    } else if is_letter(ws[0], 99) {
        Ok(acc)
    } else if is_letter(ws[0], 112) {
        if ws.len() < 3 {
            Err(ReadError::BadHeader)
        } else {
            match unsigned_number(ws[2]) {
                Some(v) => if v <= usize::MAX {
                    Ok(Problem { n: v as usize, ..acc })
                } else {
                    Err(ReadError::BadHeader)
                },
                None => Err(ReadError::BadHeader),
            }
        }
    } else {
        match gather(ws, ws.len()) {
            Some((c, closed)) => Ok(Problem { clauses: acc.clauses.push(c), ..acc }),
            None => Err(ReadError::BadToken),
        }
    }
}

/// What the first `upto` lines add up to, or the error of the first line
/// among them that cannot be read.
pub open spec fn read_lines(ls: Seq<Seq<u8>>, upto: nat) -> Result<Problem, ReadError>
    decreases upto,
{
    if upto == 0 {
        Ok(Problem { clauses: Seq::empty(), n: 0 })
    } else {
        match read_lines(ls, (upto - 1) as nat) {
            Err(e) => Err(e),
            Ok(acc) => read_line(ls[upto - 1], acc),
        }
    }
}

/// What an input holds.
pub open spec fn parsed(s: Seq<u8>) -> Result<Problem, ReadError> {
    read_lines(lines(s), lines(s).len())
}

/// What is decided after some tokens stays decided after more.
proof fn lemma_gather_settled(ws: Seq<Seq<u8>>, k: nat, upto: nat)
    requires
        k <= upto,
        match gather(ws, k) {
            None => true,
            Some(g) => g.1,
        },
    ensures
        gather(ws, upto) == gather(ws, k),
    decreases upto,
{
    if k < upto {
        lemma_gather_settled(ws, k, (upto - 1) as nat);
    }
}

/// The first error is the error of the whole.
proof fn lemma_read_lines_failed(ls: Seq<Seq<u8>>, k: nat, upto: nat)
    requires
        k <= upto,
        read_lines(ls, k) is Err,
    ensures
        read_lines(ls, upto) == read_lines(ls, k),
    decreases upto,
{
    if k < upto {
        lemma_read_lines_failed(ls, k, (upto - 1) as nat);
    }
}

/// The clause that the tokens of a line write.
fn parse_clause(ws: &Vec<Vec<u8>>) -> (r: Option<Clause>)
    ensures
        match gather(texts(ws@), ws@.len()) {
            Some((c, closed)) => r is Some && r->0@ == c,
            None => r is None,
        },
{
    let ghost tokens = texts(ws@);
    let mut t: Vec<usize> = Vec::new();
    let mut f: Vec<usize> = Vec::new();
    let mut k: usize = 0;
    while k < ws.len()
        invariant
            k <= ws@.len(),
            tokens == texts(ws@),
            gather(tokens, k as nat) == Some((Literals { t: t@, f: f@ }, false)),
        decreases ws@.len() - k,
    {
        proof {
            assert(tokens[k as int] == ws@[k as int]@);
        }
        match parse_literal(&ws[k]) {
            None => {
                proof {
                    lemma_gather_settled(tokens, (k + 1) as nat, ws@.len());
                }
                return None;
            },
            Some((negated, v)) => {
                if v == 0 {
                    proof {
                        lemma_gather_settled(tokens, (k + 1) as nat, ws@.len());
                    }
                    return Some(Clause { t, f });
                } else if negated {
                    f.push(v);
                } else {
                    t.push(v);
                }
            },
        }
        k += 1;
    }
    Some(Clause { t, f })
}

/// Whether the token is the one byte `b`.
fn token_is(w: &Vec<u8>, b: u8) -> (r: bool)
    ensures
        r == is_letter(w@, b),
{
    w.len() == 1 && w[0] == b
}

/// Reads a formula from the bytes of an input.
///
/// Fails with the error of the first line that cannot be read; and with
/// `OutOfRange` where every line can be read, but no store can be built
/// from the clauses and the declared number of variables.
pub fn read_input(source: &[u8]) -> (r: Result<CNF, ReadError>)
    ensures
        match parsed(source@) {
            Err(e) => r is Err && r->Err_0 == e,
            Ok(p) => if CNF::admits(p.clauses, p.n) {
                &&& r is Ok
                &&& r->Ok_0.wf()
                &&& r->Ok_0.clauses() == p.clauses
                &&& r->Ok_0.declared() == p.n
                &&& r->Ok_0.mask() == blank(p.clauses.len())
                &&& r->Ok_0.history() == Seq::<usize>::empty()
            } else {
                r is Err && r->Err_0 == ReadError::OutOfRange
            },
        },
{
    let ls = split_lines(source);
    let ghost all = texts(ls@);
    let mut clauses: Vec<Clause> = Vec::new();
    let mut n: usize = 0;
    let mut i: usize = 0;
    proof {
        assert(literals(clauses@) =~= Seq::<Literals>::empty());
    }
    while i < ls.len()
        invariant
            i <= ls@.len(),
            all == texts(ls@),
            all == lines(source@),
            read_lines(all, i as nat) == Ok::<Problem, ReadError>(
                Problem { clauses: literals(clauses@), n },
            ),
        decreases ls@.len() - i,
    {
        let ws = split_words(&ls[i]);
        proof {
            assert(all[i as int] == ls@[i as int]@);
            if read_line(all[i as int], Problem { clauses: literals(clauses@), n }) is Err {
                lemma_read_lines_failed(all, (i + 1) as nat, ls@.len());
            }
            if ws@.len() > 0 {
                assert(texts(ws@)[0] == ws@[0]@);
            }
            if ws@.len() > 2 {
                assert(texts(ws@)[2] == ws@[2]@);
            }
        }
        if ws.len() == 0 {
            return Err(ReadError::EmptyLine);
        }
        if token_is(&ws[0], 99) {
        } else if token_is(&ws[0], 112) {
            if ws.len() < 3 {
                return Err(ReadError::BadHeader);
            }
            match parse_count(&ws[2]) {
                Some(v) => {
                    n = v;
                },
                None => {
                    return Err(ReadError::BadHeader);
                },
            }
        } else {
            match parse_clause(&ws) {
                Some(c) => {
                    proof {
                        assert(literals(clauses@.push(c)) =~= literals(clauses@).push(c@));
                    }
                    clauses.push(c);
                },
                None => {
                    return Err(ReadError::BadToken);
                },
            }
        }
        i += 1;
    }
    if !CNF::admissible(&clauses, n) {
        return Err(ReadError::OutOfRange);
    }
    Ok(CNF::new(clauses, n))
}

/// A number in base ten, without leading zeros.
pub open spec fn decimal(v: nat) -> Seq<u8>
    decreases v,
{
    if v < 10 {
        seq![(48 + v) as u8]
    } else {
        decimal(v / 10).push((48 + v % 10) as u8)
    }
}

/// The first `upto` variables of a bag, each as a number and a space;
/// under a minus sign where the bag is the negated one.
pub open spec fn bag_text(bag: Seq<usize>, negated: bool, upto: nat) -> Seq<u8>
    decreases upto,
{
    if upto == 0 {
        Seq::empty()
    } else {
        bag_text(bag, negated, (upto - 1) as nat) + (if negated {
            seq![45u8]
        } else {
            Seq::empty()
        }) + decimal(bag[upto - 1] as nat) + seq![32u8]
    }
}

/// The line of a clause: its positive variables, its negated variables,
/// and the closing 0.
pub open spec fn clause_text(c: Literals) -> Seq<u8> {
    bag_text(c.t, false, c.t.len()) + bag_text(c.f, true, c.f.len()) + seq![48u8, 10u8]
}

/// The lines of the first `upto` clauses.
pub open spec fn body_text(clauses: Seq<Literals>, upto: nat) -> Seq<u8>
    decreases upto,
{
    if upto == 0 {
        Seq::empty()
    } else {
        body_text(clauses, (upto - 1) as nat) + clause_text(clauses[upto - 1])
    }
}

/// The line `p cnf`, the number of variables, the number of clauses.
pub open spec fn header_text(n: nat, count: nat) -> Seq<u8> {
    seq![112u8, 32u8, 99u8, 110u8, 102u8, 32u8] + decimal(n) + seq![32u8] + decimal(count) + seq![
        10u8,
    ]
}

/// A formula as text: the header line, then one line for each clause.
pub open spec fn formula_text(n: nat, clauses: Seq<Literals>) -> Seq<u8> {
    header_text(n, clauses.len()) + body_text(clauses, clauses.len())
}

/// An assignment of the variables `1..=upto` as text: every variable as
/// a number, under a minus sign where it is not a member of `s`, with one
/// space between two of them.
pub open spec fn solution_text(s: Set<usize>, upto: nat) -> Seq<u8>
    decreases upto,
{
    if upto == 0 {
        Seq::empty()
    } else {
        solution_text(s, (upto - 1) as nat) + (if upto > 1 {
            seq![32u8]
        } else {
            Seq::empty()
        }) + (if s.contains(upto as usize) {
            Seq::empty()
        } else {
            seq![45u8]
        }) + decimal(upto)
    }
}

/// Appends a number in base ten.
pub(crate) fn push_decimal(out: &mut Vec<u8>, v: usize)
    ensures
        final(out)@ == old(out)@ + decimal(v as nat),
    decreases v,
{
    if v >= 10 {
        push_decimal(out, v / 10);
    }
    out.push(48 + (v % 10) as u8);
    proof {
        assert(final(out)@ =~= old(out)@ + decimal(v as nat));
    }
}

/// Appends the variables of a bag, each as a number and a space.
pub(crate) fn push_bag(out: &mut Vec<u8>, bag: &Vec<usize>, negated: bool)
    ensures
        final(out)@ == old(out)@ + bag_text(bag@, negated, bag@.len()),
{
    let mut j: usize = 0;
    proof {
        assert(out@ =~= old(out)@ + bag_text(bag@, negated, 0));
    }
    while j < bag.len()
        invariant
            j <= bag@.len(),
            out@ == old(out)@ + bag_text(bag@, negated, j as nat),
        decreases bag@.len() - j,
    {
        if negated {
            out.push(45);
        }
        push_decimal(out, bag[j]);
        out.push(32);
        proof {
            assert(out@ =~= old(out)@ + bag_text(bag@, negated, (j + 1) as nat));
        }
        j += 1;
    }
}

} // verus!
