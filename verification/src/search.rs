//! The search, as a function of the pool: which pairs are combined, in what
//! order, and what is found on the way.
//!
//! A search works on a pool of terms in descending order of value. It takes
//! every pair of pool positions out once, the earlier position as the left
//! operand, tries the four operators on the pair, and puts the pair back.
//! Every term that an operator yields is counted and, if it has the target's
//! value and is new, kept as a solution; then it enters what is left of the
//! pool for a search one level down. The pool loses one term with every
//! level, so the search ends.
use crate::bounds::factor;
use crate::term::{Operator, Term};
use vstd::prelude::*;

verus! {

/// What a search has found so far.
pub struct Tally {
    /// The distinct solutions, in the order in which they were first found.
    pub solutions: Seq<Term>,
    /// How many operator applications were carried out.
    pub counter: nat,
}

/// The values never increase along the pool.
pub open spec fn descending(pool: Seq<Term>) -> bool {
    forall|i: int, j: int| 0 <= i < j < pool.len() ==> pool[i].value >= pool[j].value
}

/// The product of the pool's values, with a one counted as two. No term
/// that can be built from the pool has a larger value.
pub open spec fn span(pool: Seq<Term>) -> int
    decreases pool.len(),
{
    if pool.len() == 0 {
        1
    } else {
        span(pool.drop_last()) * factor(pool.last().value)
    }
}

/// A pool that a search can work on: it is in descending order, holds
/// well-formed terms, and leaves room in `usize` for every value that can
/// be built from it.
pub open spec fn fit(pool: Seq<Term>) -> bool {
    &&& descending(pool)
    &&& forall|i: int| 0 <= i < pool.len() ==> pool[i].well_formed()
    &&& span(pool) <= usize::MAX
}

/// What a search maintains of the solutions: each is a well-formed term
/// with the target as its value, and none occurs twice.
pub open spec fn kept(t: Tally, target: usize) -> bool {
    &&& forall|i: int|
        0 <= i < t.solutions.len() ==> t.solutions[i].well_formed() && t.solutions[i].value
            == target
    &&& t.solutions.no_duplicates()
}

/// The first index at or after `from` whose term has a value of at most
/// `value`, or the pool's length if there is none. A new term of that value
/// enters the pool at `slot(pool, value, 0)`.
pub open spec fn slot(pool: Seq<Term>, value: usize, from: int) -> int
    decreases pool.len() - from,
{
    if from < 0 || from >= pool.len() || pool[from].value <= value {
        from
    } else {
        slot(pool, value, from + 1)
    }
}

/// The tally after one operator application that produced `c`: the
/// application is counted, and `c` is a new solution if it hits the target
/// and is not among the solutions yet.
pub open spec fn record(t: Tally, c: Term, target: usize) -> Tally {
    Tally {
        solutions: if c.value == target && !t.solutions.contains(c) {
            t.solutions.push(c)
        } else {
            t.solutions
        },
        counter: t.counter + 1,
    }
}

/// The tally after trying `op` on `a` and `b`, which were taken out of the
/// pool and left `rest` behind. Where the rules do not allow the operator,
/// nothing happens. Otherwise the new term is recorded and, unless `rest` is
/// empty, enters `rest` at its slot for a search one level down.
pub open spec fn attempt(
    rest: Seq<Term>,
    target: usize,
    t: Tally,
    op: Operator,
    a: Term,
    b: Term,
) -> Tally
    decreases rest.len() + 2, 0int, 0int, 0int,
{
    if !op.admits(a.value as int, b.value as int) {
        t
    } else {
        let c = Term::derived(op, a, b);
        let t1 = record(t, c, target);
        if rest.len() > 0 {
            proof {
                lemma_slot(rest, c.value, 0);
            }
            search(rest.insert(slot(rest, c.value, 0), c), target, t1)
        } else {
            t1
        }
    }
}

/// The tally after trying all four operators on `a` and `b`.
pub open spec fn combine(rest: Seq<Term>, target: usize, t: Tally, a: Term, b: Term) -> Tally
    decreases rest.len() + 2, 1int, 0int, 0int,
{
    let t = attempt(rest, target, t, Operator::Addition, a, b);
    let t = attempt(rest, target, t, Operator::Subtraction, a, b);
    let t = attempt(rest, target, t, Operator::Multiplication, a, b);
    attempt(rest, target, t, Operator::Division, a, b)
}

/// The tally after combining every pair of pool positions from `(i, k)`
/// onwards, `i < k`, in the order `(0, 1), (0, 2), .., (1, 2), ..`.
pub open spec fn sweep(pool: Seq<Term>, target: usize, t: Tally, i: int, k: int) -> Tally
    decreases pool.len(), 2int, pool.len() - i, pool.len() - k,
{
    if i < 0 || k <= i || i + 1 >= pool.len() {
        t
    } else if k >= pool.len() {
        sweep(pool, target, t, i + 1, i + 2)
    } else {
        let rest = pool.remove(i).remove(k - 1);
        sweep(pool, target, combine(rest, target, t, pool[i], pool[k]), i, k + 1)
    }
}

/// The tally after a full search of the pool.
pub open spec fn search(pool: Seq<Term>, target: usize, t: Tally) -> Tally
    decreases pool.len(), 3int, 0int, 0int,
{
    sweep(pool, target, t, 0, 1)
}

/// Before its slot every term is larger than `value`; the term at the slot,
/// if there is one, is not.
pub proof fn lemma_slot(pool: Seq<Term>, value: usize, from: int)
    requires
        0 <= from <= pool.len(),
    ensures
        from <= slot(pool, value, from) <= pool.len(),
        forall|i: int| from <= i < slot(pool, value, from) ==> pool[i].value > value,
        slot(pool, value, from) < pool.len() ==> pool[slot(pool, value, from)].value <= value,
    decreases pool.len() - from,
{
    if from < pool.len() && pool[from].value > value {
        lemma_slot(pool, value, from + 1);
    }
}

/// The span of a pool is at least one.
pub proof fn lemma_span_positive(pool: Seq<Term>)
    ensures
        span(pool) >= 1,
    decreases pool.len(),
{
    if pool.len() > 0 {
        lemma_span_positive(pool.drop_last());
        let s = span(pool.drop_last());
        let v = factor(pool.last().value);
        assert(s * v >= 1) by (nonlinear_arith)
            requires
                s >= 1,
                v >= 2,
        ;
    }
}

/// Taking a term out of the pool divides the span by the factor of its
/// value.
pub proof fn lemma_span_remove(pool: Seq<Term>, i: int)
    requires
        0 <= i < pool.len(),
    ensures
        span(pool) == span(pool.remove(i)) * factor(pool[i].value),
    decreases pool.len(),
{
    if i == pool.len() - 1 {
        assert(pool.remove(i) =~= pool.drop_last());
    } else {
        let front = pool.drop_last();
        lemma_span_remove(front, i);
        assert(pool.remove(i).drop_last() =~= front.remove(i));
        assert(pool.remove(i).last() == pool.last());
        let s = span(front.remove(i));
        let x = factor(pool[i].value);
        let y = factor(pool.last().value);
        assert(span(front) == s * x);
        assert(span(pool) == span(front) * y);
        assert(span(pool.remove(i)) == s * y);
        assert((s * x) * y == (s * y) * x) by (nonlinear_arith);
    }
}

/// Putting a term into the pool multiplies the span by the factor of its
/// value.
pub proof fn lemma_span_insert(pool: Seq<Term>, i: int, c: Term)
    requires
        0 <= i <= pool.len(),
    ensures
        span(pool.insert(i, c)) == span(pool) * factor(c.value),
{
    let bigger = pool.insert(i, c);
    lemma_span_remove(bigger, i);
    assert(bigger.remove(i) =~= pool);
}

/// A pool with one term taken out is still descending.
pub proof fn lemma_remove_descending(pool: Seq<Term>, i: int)
    requires
        descending(pool),
        0 <= i < pool.len(),
    ensures
        descending(pool.remove(i)),
{
    let smaller = pool.remove(i);
    assert forall|x: int, y: int| 0 <= x < y < smaller.len() implies smaller[x].value
        >= smaller[y].value by {
        let xx = if x < i { x } else { x + 1 };
        let yy = if y < i { y } else { y + 1 };
        assert(smaller[x] == pool[xx] && smaller[y] == pool[yy]);
    }
}

/// A term that enters a descending pool at its slot leaves it descending.
pub proof fn lemma_enter_descending(pool: Seq<Term>, c: Term)
    requires
        descending(pool),
    ensures
        descending(pool.insert(slot(pool, c.value, 0), c)),
{
    lemma_slot(pool, c.value, 0);
    let p = slot(pool, c.value, 0);
    let bigger = pool.insert(p, c);
    assert forall|i: int, j: int| 0 <= i < j < bigger.len() implies bigger[i].value
        >= bigger[j].value by {
        if j < p {
            assert(bigger[i] == pool[i] && bigger[j] == pool[j]);
        } else if j == p {
            assert(bigger[i] == pool[i]);
        } else if i < p {
            assert(bigger[i] == pool[i] && bigger[j] == pool[j - 1]);
        } else if i == p {
            assert(bigger[j] == pool[j - 1]);
            assert(pool[p].value >= pool[j - 1].value || j - 1 == p);
        } else {
            assert(bigger[i] == pool[i - 1] && bigger[j] == pool[j - 1]);
        }
    }
}

/// A fit pool that loses one term is still fit, and the term that left
/// fits beside the rest and is at least as large as what followed it.
pub proof fn lemma_remove_fits(pool: Seq<Term>, i: int)
    requires
        fit(pool),
        0 <= i < pool.len(),
    ensures
        fit(pool.remove(i)),
        pool[i].well_formed(),
        span(pool.remove(i)) * factor(pool[i].value) <= usize::MAX,
        forall|m: int| i <= m < pool.len() - 1 ==> pool[i].value >= pool.remove(i)[m].value,
{
    let smaller = pool.remove(i);
    lemma_remove_descending(pool, i);
    lemma_span_remove(pool, i);
    lemma_span_positive(smaller);
    let s = span(smaller);
    let x = factor(pool[i].value);
    assert(s <= s * x) by (nonlinear_arith)
        requires
            s >= 1,
            x >= 2,
    ;
    assert forall|m: int| 0 <= m < smaller.len() implies smaller[m].well_formed() by {
        if m < i {
            assert(smaller[m] == pool[m]);
        } else {
            assert(smaller[m] == pool[m + 1]);
        }
    }
    assert forall|m: int| i <= m < pool.len() - 1 implies pool[i].value >= smaller[m].value by {
        assert(smaller[m] == pool[m + 1]);
    }
}

/// A well-formed term that fits beside a fit pool can enter it at its slot.
pub proof fn lemma_enter_fits(pool: Seq<Term>, c: Term)
    requires
        fit(pool),
        c.well_formed(),
        span(pool) * factor(c.value) <= usize::MAX,
    ensures
        0 <= slot(pool, c.value, 0) <= pool.len(),
        fit(pool.insert(slot(pool, c.value, 0), c)),
{
    let at = slot(pool, c.value, 0);
    lemma_slot(pool, c.value, 0);
    lemma_enter_descending(pool, c);
    lemma_span_insert(pool, at, c);
    let entered = pool.insert(at, c);
    assert forall|m: int| 0 <= m < entered.len() implies entered[m].well_formed() by {
        if m < at {
            assert(entered[m] == pool[m]);
        } else if m > at {
            assert(entered[m] == pool[m - 1]);
        }
    }
}

/// Where the rules allow an operator on two well-formed terms that fit
/// beside a pool, the larger one first, the result is a well-formed term
/// that fits beside the pool.
pub proof fn lemma_derived_fits(rest: Seq<Term>, op: Operator, a: Term, b: Term)
    requires
        a.well_formed(),
        b.well_formed(),
        a.value >= b.value,
        span(rest) * factor(a.value) * factor(b.value) <= usize::MAX,
        op.admits(a.value as int, b.value as int),
    ensures
        op.apply(a.value as int, b.value as int) <= usize::MAX,
        Term::derived(op, a, b).well_formed(),
        Term::derived(op, a, b).value == op.apply(a.value as int, b.value as int),
        span(rest) * factor(Term::derived(op, a, b).value) <= usize::MAX,
{
    let s = span(rest);
    let x = a.value as int;
    let y = b.value as int;
    let fx = factor(a.value);
    let fy = factor(b.value);
    let v = op.apply(x, y);
    lemma_span_positive(rest);
    assert(x + y <= fx * fy && x * y <= fx * fy && 1 <= x * y && 4 <= fx * fy) by (nonlinear_arith)
        requires
            1 <= x <= fx,
            1 <= y <= fy,
            fx >= 2,
            fy >= 2,
    ;
    if op == Operator::Division {
        assert(1 <= x / y <= x) by (nonlinear_arith)
            requires
                x >= y,
                y >= 1,
        ;
    }
    let p = fx * fy;
    assert(1 <= v <= p);
    let fv = if v < 2 { 2 } else { v };
    assert(s * fv <= s * p && p <= s * p) by (nonlinear_arith)
        requires
            s >= 1,
            0 <= fv <= p,
    ;
    assert(s * p == s * fx * fy) by (nonlinear_arith)
        requires
            p == fx * fy,
    ;
}

/// Recording a well-formed term maintains the solutions.
pub proof fn lemma_record_keeps(t: Tally, c: Term, target: usize)
    requires
        kept(t, target),
        c.well_formed(),
    ensures
        kept(record(t, c, target), target),
{
    let before = t.solutions;
    let after = record(t, c, target).solutions;
    if c.value == target && !before.contains(c) {
        assert forall|m: int, k: int| 0 <= m < after.len() && 0 <= k < after.len() && m != k
            implies after[m] != after[k] by {
            if m < before.len() && k < before.len() {
                assert(before[m] != before[k]);
            } else if m < before.len() {
                assert(before.contains(before[m]));
            } else {
                assert(before.contains(before[k]));
            }
        }
    }
}

} // verus!
