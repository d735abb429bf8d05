//! What holds of every search, proved of the functions that define it: a
//! search only adds to what was found, every solution is an expression that
//! the rules allow, made of the pool's numbers and worth the target, the
//! number of steps depends on the pool alone, and a second search finds
//! nothing new.
use crate::bounds::factor;
use crate::search::{
    attempt, combine, fit, kept, lemma_derived_fits, lemma_enter_fits, lemma_record_keeps,
    lemma_remove_fits, lemma_slot, lemma_span_remove, record, search, slot, span, sweep, Tally,
};
use crate::term::{Operator, Term};
use vstd::multiset::Multiset;
use vstd::prelude::*;

verus! {

/// The starting numbers that the terms of a pool are made of.
pub open spec fn pool_leaves(pool: Seq<Term>) -> Multiset<Term>
    decreases pool.len(),
{
    if pool.len() == 0 {
        Multiset::empty()
    } else {
        pool_leaves(pool.drop_last()).add(pool.last().leaves())
    }
}

/// A later tally continues an earlier one: the solutions of before are
/// still there, in their places, the count did not go down, and every
/// solution that came on top is made of starting numbers from `source`,
/// none of them taken more often than `source` holds it.
pub open spec fn extends(before: Tally, after: Tally, source: Multiset<Term>) -> bool {
    &&& before.solutions.is_prefix_of(after.solutions)
    &&& before.counter <= after.counter
    &&& forall|i: int|
        before.solutions.len() <= i < after.solutions.len() ==> (#[trigger] after.solutions[i]).leaves().subset_of(
            source,
        )
}

/// Continuing a tally twice continues it.
proof fn lemma_extends_twice(a: Tally, b: Tally, c: Tally, source: Multiset<Term>)
    requires
        extends(a, b, source),
        extends(b, c, source),
    ensures
        extends(a, c, source),
{
    assert forall|i: int| a.solutions.len() <= i < c.solutions.len() implies (
    #[trigger] c.solutions[i]).leaves().subset_of(source) by {
        if i < b.solutions.len() {
            assert(c.solutions[i] == b.solutions[i]);
        }
    }
}

/// The leaves of a pool are those of one of its terms and those of the
/// others.
proof fn lemma_pool_leaves_remove(pool: Seq<Term>, i: int)
    requires
        0 <= i < pool.len(),
    ensures
        pool_leaves(pool) =~= pool_leaves(pool.remove(i)).add(pool[i].leaves()),
    decreases pool.len(),
{
    if i == pool.len() - 1 {
        assert(pool.remove(i) =~= pool.drop_last());
    } else {
        let front = pool.drop_last();
        lemma_pool_leaves_remove(front, i);
        assert(pool.remove(i).drop_last() =~= front.remove(i));
        assert(pool.remove(i).last() == pool.last());
    }
}

/// The leaves of a pool that a term has entered are those of the pool and
/// those of the term.
proof fn lemma_pool_leaves_insert(pool: Seq<Term>, i: int, c: Term)
    requires
        0 <= i <= pool.len(),
    ensures
        pool_leaves(pool.insert(i, c)) =~= pool_leaves(pool).add(c.leaves()),
{
    lemma_pool_leaves_remove(pool.insert(i, c), i);
    assert(pool.insert(i, c).remove(i) =~= pool);
}

/// Trying one operator continues the tally, from the leaves of the pool and
/// of the two operands.
pub proof fn lemma_attempt_extends(
    rest: Seq<Term>,
    target: usize,
    t: Tally,
    op: Operator,
    a: Term,
    b: Term,
)
    ensures
        extends(
            t,
            attempt(rest, target, t, op, a, b),
            pool_leaves(rest).add(a.leaves()).add(b.leaves()),
        ),
    decreases rest.len() + 2, 0int, 0int, 0int,
{
    let source = pool_leaves(rest).add(a.leaves()).add(b.leaves());
    if op.admits(a.value as int, b.value as int) {
        let c = Term::derived(op, a, b);
        let t1 = record(t, c, target);
        assert(c.leaves() =~= a.leaves().add(b.leaves()));
        assert(c.leaves().subset_of(source));
        assert(extends(t, t1, source));
        if rest.len() > 0 {
            let p = slot(rest, c.value, 0);
            lemma_slot(rest, c.value, 0);
            let entered = rest.insert(p, c);
            lemma_pool_leaves_insert(rest, p, c);
            assert(pool_leaves(entered) =~= source);
            lemma_search_extends(entered, target, t1);
            lemma_extends_twice(t, t1, search(entered, target, t1), source);
        }
    }
}

/// Trying the four operators continues the tally, from the leaves of the
/// pool and of the two operands.
pub proof fn lemma_combine_extends(rest: Seq<Term>, target: usize, t: Tally, a: Term, b: Term)
    ensures
        extends(
            t,
            combine(rest, target, t, a, b),
            pool_leaves(rest).add(a.leaves()).add(b.leaves()),
        ),
    decreases rest.len() + 2, 1int, 0int, 0int,
{
    let source = pool_leaves(rest).add(a.leaves()).add(b.leaves());
    let t1 = attempt(rest, target, t, Operator::Addition, a, b);
    let t2 = attempt(rest, target, t1, Operator::Subtraction, a, b);
    let t3 = attempt(rest, target, t2, Operator::Multiplication, a, b);
    let t4 = attempt(rest, target, t3, Operator::Division, a, b);
    lemma_attempt_extends(rest, target, t, Operator::Addition, a, b);
    lemma_attempt_extends(rest, target, t1, Operator::Subtraction, a, b);
    lemma_attempt_extends(rest, target, t2, Operator::Multiplication, a, b);
    lemma_attempt_extends(rest, target, t3, Operator::Division, a, b);
    lemma_extends_twice(t, t1, t2, source);
    lemma_extends_twice(t, t2, t3, source);
    lemma_extends_twice(t, t3, t4, source);
}

/// Combining the pairs from `(i, k)` onwards continues the tally, from the
/// leaves of the pool.
pub proof fn lemma_sweep_extends(pool: Seq<Term>, target: usize, t: Tally, i: int, k: int)
    ensures
        extends(t, sweep(pool, target, t, i, k), pool_leaves(pool)),
    decreases pool.len(), 2int, pool.len() - i, pool.len() - k,
{
    if i < 0 || k <= i || i + 1 >= pool.len() {
    } else if k >= pool.len() {
        lemma_sweep_extends(pool, target, t, i + 1, i + 2);
    } else {
        let mid = pool.remove(i);
        let rest = mid.remove(k - 1);
        let t1 = combine(rest, target, t, pool[i], pool[k]);
        lemma_pool_leaves_remove(pool, i);
        lemma_pool_leaves_remove(mid, k - 1);
        assert(mid[k - 1] == pool[k]);
        assert(pool_leaves(pool) =~= pool_leaves(rest).add(pool[i].leaves()).add(pool[k].leaves()));
        lemma_combine_extends(rest, target, t, pool[i], pool[k]);
        lemma_sweep_extends(pool, target, t1, i, k + 1);
        lemma_extends_twice(t, t1, sweep(pool, target, t1, i, k + 1), pool_leaves(pool));
    }
}

/// A search continues the tally: it removes no solution, moves none, and
/// every solution that it adds is made of starting numbers of the pool,
/// none of them taken more often than the pool holds it.
pub proof fn lemma_search_extends(pool: Seq<Term>, target: usize, t: Tally)
    ensures
        extends(t, search(pool, target, t), pool_leaves(pool)),
    decreases pool.len(), 3int, 0int, 0int,
{
    lemma_sweep_extends(pool, target, t, 0, 1);
}

/// Trying one operator on two well-formed terms that fit beside a fit pool,
/// the larger one first, maintains the solutions.
pub proof fn lemma_attempt_keeps(
    rest: Seq<Term>,
    target: usize,
    t: Tally,
    op: Operator,
    a: Term,
    b: Term,
)
    requires
        fit(rest),
        kept(t, target),
        a.well_formed(),
        b.well_formed(),
        a.value >= b.value,
        span(rest) * factor(a.value) * factor(b.value) <= usize::MAX,
    ensures
        kept(attempt(rest, target, t, op, a, b), target),
    decreases rest.len() + 2, 0int, 0int, 0int,
{
    if op.admits(a.value as int, b.value as int) {
        let c = Term::derived(op, a, b);
        let t1 = record(t, c, target);
        lemma_derived_fits(rest, op, a, b);
        lemma_record_keeps(t, c, target);
        if rest.len() > 0 {
            lemma_enter_fits(rest, c);
            lemma_search_keeps(rest.insert(slot(rest, c.value, 0), c), target, t1);
        }
    }
}

/// Trying the four operators maintains the solutions.
pub proof fn lemma_combine_keeps(rest: Seq<Term>, target: usize, t: Tally, a: Term, b: Term)
    requires
        fit(rest),
        kept(t, target),
        a.well_formed(),
        b.well_formed(),
        a.value >= b.value,
        span(rest) * factor(a.value) * factor(b.value) <= usize::MAX,
    ensures
        kept(combine(rest, target, t, a, b), target),
    decreases rest.len() + 2, 1int, 0int, 0int,
{
    let t1 = attempt(rest, target, t, Operator::Addition, a, b);
    let t2 = attempt(rest, target, t1, Operator::Subtraction, a, b);
    let t3 = attempt(rest, target, t2, Operator::Multiplication, a, b);
    lemma_attempt_keeps(rest, target, t, Operator::Addition, a, b);
    lemma_attempt_keeps(rest, target, t1, Operator::Subtraction, a, b);
    lemma_attempt_keeps(rest, target, t2, Operator::Multiplication, a, b);
    lemma_attempt_keeps(rest, target, t3, Operator::Division, a, b);
}

/// Combining the pairs of a fit pool from `(i, k)` onwards maintains the
/// solutions. Every pair is combined with its larger term first.
pub proof fn lemma_sweep_keeps(pool: Seq<Term>, target: usize, t: Tally, i: int, k: int)
    requires
        fit(pool),
        kept(t, target),
    ensures
        kept(sweep(pool, target, t, i, k), target),
    decreases pool.len(), 2int, pool.len() - i, pool.len() - k,
{
    if i < 0 || k <= i || i + 1 >= pool.len() {
    } else if k >= pool.len() {
        lemma_sweep_keeps(pool, target, t, i + 1, i + 2);
    } else {
        let mid = pool.remove(i);
        let rest = mid.remove(k - 1);
        lemma_remove_fits(pool, i);
        lemma_remove_fits(mid, k - 1);
        lemma_span_remove(mid, k - 1);
        assert(mid[k - 1] == pool[k]);
        let s = span(rest);
        let x = factor(pool[i].value);
        let y = factor(pool[k].value);
        assert(s * x * y == (s * y) * x) by (nonlinear_arith);
        lemma_combine_keeps(rest, target, t, pool[i], pool[k]);
        lemma_sweep_keeps(pool, target, combine(rest, target, t, pool[i], pool[k]), i, k + 1);
    }
}

/// A search of a fit pool maintains the solutions: afterwards each is a
/// well-formed term with the target as its value, and none occurs twice.
pub proof fn lemma_search_keeps(pool: Seq<Term>, target: usize, t: Tally)
    requires
        fit(pool),
        kept(t, target),
    ensures
        kept(search(pool, target, t), target),
    decreases pool.len(), 3int, 0int, 0int,
{
    lemma_sweep_keeps(pool, target, t, 0, 1);
}

/// How many steps trying one operator takes does not depend on what was
/// found or counted before.
pub proof fn lemma_attempt_counts(
    rest: Seq<Term>,
    target: usize,
    t: Tally,
    u: Tally,
    op: Operator,
    a: Term,
    b: Term,
)
    ensures
        attempt(rest, target, t, op, a, b).counter - t.counter == attempt(
            rest,
            target,
            u,
            op,
            a,
            b,
        ).counter - u.counter,
    decreases rest.len() + 2, 0int, 0int, 0int,
{
    if op.admits(a.value as int, b.value as int) && rest.len() > 0 {
        let c = Term::derived(op, a, b);
        lemma_slot(rest, c.value, 0);
        lemma_search_counts(
            rest.insert(slot(rest, c.value, 0), c),
            target,
            record(t, c, target),
            record(u, c, target),
        );
    }
}

/// How many steps trying the four operators takes does not depend on what
/// was found or counted before.
pub proof fn lemma_combine_counts(
    rest: Seq<Term>,
    target: usize,
    t: Tally,
    u: Tally,
    a: Term,
    b: Term,
)
    ensures
        combine(rest, target, t, a, b).counter - t.counter == combine(
            rest,
            target,
            u,
            a,
            b,
        ).counter - u.counter,
    decreases rest.len() + 2, 1int, 0int, 0int,
{
    let t1 = attempt(rest, target, t, Operator::Addition, a, b);
    let t2 = attempt(rest, target, t1, Operator::Subtraction, a, b);
    let t3 = attempt(rest, target, t2, Operator::Multiplication, a, b);
    let u1 = attempt(rest, target, u, Operator::Addition, a, b);
    let u2 = attempt(rest, target, u1, Operator::Subtraction, a, b);
    let u3 = attempt(rest, target, u2, Operator::Multiplication, a, b);
    lemma_attempt_counts(rest, target, t, u, Operator::Addition, a, b);
    lemma_attempt_counts(rest, target, t1, u1, Operator::Subtraction, a, b);
    lemma_attempt_counts(rest, target, t2, u2, Operator::Multiplication, a, b);
    lemma_attempt_counts(rest, target, t3, u3, Operator::Division, a, b);
}

/// How many steps combining the pairs from `(i, k)` onwards takes does not
/// depend on what was found or counted before.
pub proof fn lemma_sweep_counts(pool: Seq<Term>, target: usize, t: Tally, u: Tally, i: int, k: int)
    ensures
        sweep(pool, target, t, i, k).counter - t.counter == sweep(pool, target, u, i, k).counter
            - u.counter,
    decreases pool.len(), 2int, pool.len() - i, pool.len() - k,
{
    if i < 0 || k <= i || i + 1 >= pool.len() {
    } else if k >= pool.len() {
        lemma_sweep_counts(pool, target, t, u, i + 1, i + 2);
    } else {
        let rest = pool.remove(i).remove(k - 1);
        lemma_combine_counts(rest, target, t, u, pool[i], pool[k]);
        lemma_sweep_counts(
            pool,
            target,
            combine(rest, target, t, pool[i], pool[k]),
            combine(rest, target, u, pool[i], pool[k]),
            i,
            k + 1,
        );
    }
}

/// How many steps a search takes depends on the pool alone, not on what
/// was found or counted before.
pub proof fn lemma_search_counts(pool: Seq<Term>, target: usize, t: Tally, u: Tally)
    ensures
        search(pool, target, t).counter - t.counter == search(pool, target, u).counter
            - u.counter,
    decreases pool.len(), 3int, 0int, 0int,
{
    lemma_sweep_counts(pool, target, t, u, 0, 1);
}

/// Trying one operator adds nothing to solutions that already hold what the
/// same try adds elsewhere.
pub proof fn lemma_attempt_again(
    rest: Seq<Term>,
    target: usize,
    t: Tally,
    u: Tally,
    op: Operator,
    a: Term,
    b: Term,
)
    requires
        attempt(rest, target, t, op, a, b).solutions.is_prefix_of(u.solutions),
    ensures
        attempt(rest, target, u, op, a, b).solutions == u.solutions,
    decreases rest.len() + 2, 0int, 0int, 0int,
{
    if op.admits(a.value as int, b.value as int) {
        let c = Term::derived(op, a, b);
        let t1 = record(t, c, target);
        let u1 = record(u, c, target);
        if rest.len() > 0 {
            lemma_slot(rest, c.value, 0);
            let entered = rest.insert(slot(rest, c.value, 0), c);
            lemma_search_extends(entered, target, t1);
        }
        let after = attempt(rest, target, t, op, a, b);
        assert(t1.solutions.is_prefix_of(after.solutions));
        if c.value == target {
            let at = if t.solutions.contains(c) {
                choose|j: int| 0 <= j < t.solutions.len() && t.solutions[j] == c
            } else {
                t.solutions.len() as int
            };
            assert(t1.solutions[at] == c);
            assert(after.solutions[at] == c);
            assert(u.solutions[at] == c);
        }
        assert(u1.solutions == u.solutions);
        if rest.len() > 0 {
            lemma_search_again(rest.insert(slot(rest, c.value, 0), c), target, t1, u1);
        }
    }
}

/// Trying the four operators adds nothing to solutions that already hold
/// what the same tries add elsewhere.
pub proof fn lemma_combine_again(
    rest: Seq<Term>,
    target: usize,
    t: Tally,
    u: Tally,
    a: Term,
    b: Term,
)
    requires
        combine(rest, target, t, a, b).solutions.is_prefix_of(u.solutions),
    ensures
        combine(rest, target, u, a, b).solutions == u.solutions,
    decreases rest.len() + 2, 1int, 0int, 0int,
{
    let source = pool_leaves(rest).add(a.leaves()).add(b.leaves());
    let t1 = attempt(rest, target, t, Operator::Addition, a, b);
    let t2 = attempt(rest, target, t1, Operator::Subtraction, a, b);
    let t3 = attempt(rest, target, t2, Operator::Multiplication, a, b);
    let t4 = attempt(rest, target, t3, Operator::Division, a, b);
    let u1 = attempt(rest, target, u, Operator::Addition, a, b);
    let u2 = attempt(rest, target, u1, Operator::Subtraction, a, b);
    let u3 = attempt(rest, target, u2, Operator::Multiplication, a, b);
    lemma_attempt_extends(rest, target, t1, Operator::Subtraction, a, b);
    lemma_attempt_extends(rest, target, t2, Operator::Multiplication, a, b);
    lemma_attempt_extends(rest, target, t3, Operator::Division, a, b);
    lemma_extends_twice(t2, t3, t4, source);
    lemma_extends_twice(t1, t2, t4, source);
    lemma_attempt_again(rest, target, t, u, Operator::Addition, a, b);
    lemma_attempt_again(rest, target, t1, u1, Operator::Subtraction, a, b);
    lemma_attempt_again(rest, target, t2, u2, Operator::Multiplication, a, b);
    lemma_attempt_again(rest, target, t3, u3, Operator::Division, a, b);
}

/// Combining the pairs from `(i, k)` onwards adds nothing to solutions that
/// already hold what the same sweep adds elsewhere.
pub proof fn lemma_sweep_again(pool: Seq<Term>, target: usize, t: Tally, u: Tally, i: int, k: int)
    requires
        sweep(pool, target, t, i, k).solutions.is_prefix_of(u.solutions),
    ensures
        sweep(pool, target, u, i, k).solutions == u.solutions,
    decreases pool.len(), 2int, pool.len() - i, pool.len() - k,
{
    if i < 0 || k <= i || i + 1 >= pool.len() {
    } else if k >= pool.len() {
        lemma_sweep_again(pool, target, t, u, i + 1, i + 2);
    } else {
        let rest = pool.remove(i).remove(k - 1);
        let t1 = combine(rest, target, t, pool[i], pool[k]);
        let u1 = combine(rest, target, u, pool[i], pool[k]);
        lemma_sweep_extends(pool, target, t1, i, k + 1);
        lemma_combine_again(rest, target, t, u, pool[i], pool[k]);
        lemma_sweep_again(pool, target, t1, u1, i, k + 1);
    }
}

/// A search adds nothing to solutions that already hold what the same
/// search adds elsewhere.
pub proof fn lemma_search_again(pool: Seq<Term>, target: usize, t: Tally, u: Tally)
    requires
        search(pool, target, t).solutions.is_prefix_of(u.solutions),
    ensures
        search(pool, target, u).solutions == u.solutions,
    decreases pool.len(), 3int, 0int, 0int,
{
    lemma_sweep_again(pool, target, t, u, 0, 1);
}

} // verus!
