//! Nothing is missed: a search finds every expression over its pool that
//! the rules allow and that has the target's value.
//!
//! A search combines two terms in one order only, the one that stands
//! earlier in the pool on the left. Where the two have the same value, the
//! expression with the other order is not built. So what is found is stated
//! up to the order of operands of equal value.
use crate::search::{
    attempt, combine, descending, lemma_enter_descending, lemma_remove_descending, lemma_slot,
    record, search, slot, sweep, Tally,
};
use crate::term::{Operator, Term};
use crate::theory::{lemma_attempt_extends, lemma_search_extends, lemma_sweep_extends};
use vstd::multiset::Multiset;
use vstd::prelude::*;

verus! {

/// Two terms are the same expression but for the order of operands of equal
/// value.
pub open spec fn similar(s: Term, t: Term) -> bool
    decreases s,
{
    &&& s.value == t.value
    &&& match s.expression {
        None => t.expression is None,
        Some((op, a, b)) => match t.expression {
            None => false,
            Some((op2, a2, b2)) => {
                &&& op == op2
                &&& ((similar(*a, *a2) && similar(*b, *b2)) || (a.value == b.value && similar(
                    *a,
                    *b2,
                ) && similar(*b, *a2)))
            },
        },
    }
}

/// The term can be put together from the parts, each part used once: it is
/// similar to the one part, or its operands can be put together from two
/// shares of the parts.
pub open spec fn covers(t: Term, parts: Multiset<Term>) -> bool
    decreases t,
{
    ||| exists|p: Term| parts == #[trigger] Multiset::singleton(p) && similar(p, t)
    ||| match t.expression {
        None => false,
        Some((_, a, b)) => exists|left: Multiset<Term>, right: Multiset<Term>|
            parts == #[trigger] left.add(right) && covers(*a, left) && covers(*b, right),
    }
}

/// A term similar to the goal is among the solutions.
pub open spec fn finds(t: Tally, goal: Term) -> bool {
    exists|i: int| 0 <= i < t.solutions.len() && similar(#[trigger] t.solutions[i], goal)
}

/// A term can be put together from its leaves, and a derived term has two
/// leaves or more.
pub proof fn lemma_leaves_cover(t: Term)
    ensures
        covers(t, t.leaves()),
        t.leaves().len() >= 1,
        t.expression is Some ==> t.leaves().len() >= 2,
    decreases t,
{
    match t.expression {
        None => {
            assert(similar(t, t));
        },
        Some((_, a, b)) => {
            lemma_leaves_cover(*a);
            lemma_leaves_cover(*b);
            assert(t.leaves() == a.leaves().add(b.leaves()));
        },
    }
}

/// A term is put together from at least one part.
proof fn lemma_covers_nonempty(t: Term, parts: Multiset<Term>)
    requires
        covers(t, parts),
    ensures
        parts.len() >= 1,
    decreases t,
{
    if exists|p: Term| parts == #[trigger] Multiset::singleton(p) && similar(p, t) {
    } else {
        match t.expression {
            None => {},
            Some((_, a, b)) => {
                let (left, right) = choose|left: Multiset<Term>, right: Multiset<Term>|
                    parts == #[trigger] left.add(right) && covers(*a, left) && covers(*b, right);
                lemma_covers_nonempty(*a, left);
            },
        }
    }
}

/// A term that is put together from one part is similar to it.
proof fn lemma_covers_single(t: Term, parts: Multiset<Term>) -> (p: Term)
    requires
        covers(t, parts),
        parts.len() == 1,
    ensures
        parts == Multiset::singleton(p),
        similar(p, t),
{
    if exists|p: Term| parts == #[trigger] Multiset::singleton(p) && similar(p, t) {
        choose|p: Term| parts == #[trigger] Multiset::singleton(p) && similar(p, t)
    } else {
        match t.expression {
            None => {},
            Some((_, a, b)) => {
                let (left, right) = choose|left: Multiset<Term>, right: Multiset<Term>|
                    parts == #[trigger] left.add(right) && covers(*a, left) && covers(*b, right);
                lemma_covers_nonempty(*a, left);
                lemma_covers_nonempty(*b, right);
            },
        }
        t
    }
}

/// In a well-formed term that is put together from two parts or more, some
/// node has two of the parts as its operands, `l` on the left and `r` on the
/// right. The node is `Term::derived(op, x, y)`; whatever is similar to it
/// can stand for the two parts.
proof fn lemma_find_pair(goal: Term, parts: Multiset<Term>) -> (found: (
    Operator,
    Term,
    Term,
    Term,
    Term,
))
    requires
        goal.well_formed(),
        covers(goal, parts),
        parts.len() >= 2,
    ensures
        ({
            let (op, x, y, l, r) = found;
            let pair = Multiset::singleton(l).add(Multiset::singleton(r));
            &&& x.value >= y.value
            &&& op.admits(x.value as int, y.value as int)
            &&& 0 < op.apply(x.value as int, y.value as int) <= usize::MAX
            &&& similar(l, x)
            &&& similar(r, y)
            &&& pair.subset_of(parts)
            &&& forall|c: Term| #[trigger]
                similar(c, Term::derived(op, x, y)) ==> covers(goal, parts.sub(pair).insert(c))
        }),
    decreases goal,
{
    assert(!(exists|p: Term| parts == #[trigger] Multiset::singleton(p) && similar(p, goal)));
    match goal.expression {
        None => {
            (Operator::Addition, goal, goal, goal, goal)
        },
        Some((op, a, b)) => {
            let (left, right) = choose|left: Multiset<Term>, right: Multiset<Term>|
                parts == #[trigger] left.add(right) && covers(*a, left) && covers(*b, right);
            lemma_covers_nonempty(*a, left);
            lemma_covers_nonempty(*b, right);
            if left.len() >= 2 {
                let found = lemma_find_pair(*a, left);
                let (nop, x, y, l, r) = found;
                let pair = Multiset::singleton(l).add(Multiset::singleton(r));
                assert forall|c: Term| #[trigger]
                    similar(c, Term::derived(nop, x, y)) implies covers(
                    goal,
                    parts.sub(pair).insert(c),
                ) by {
                    let share = left.sub(pair).insert(c);
                    assert(covers(*a, share));
                    assert(parts.sub(pair).insert(c) =~= share.add(right));
                }
                found
            } else if right.len() >= 2 {
                let found = lemma_find_pair(*b, right);
                let (nop, x, y, l, r) = found;
                let pair = Multiset::singleton(l).add(Multiset::singleton(r));
                assert forall|c: Term| #[trigger]
                    similar(c, Term::derived(nop, x, y)) implies covers(
                    goal,
                    parts.sub(pair).insert(c),
                ) by {
                    let share = right.sub(pair).insert(c);
                    assert(covers(*b, share));
                    assert(parts.sub(pair).insert(c) =~= left.add(share));
                }
                found
            } else {
                let l = lemma_covers_single(*a, left);
                let r = lemma_covers_single(*b, right);
                let pair = Multiset::singleton(l).add(Multiset::singleton(r));
                assert(goal == Term::derived(op, *a, *b));
                assert forall|c: Term| #[trigger]
                    similar(c, Term::derived(op, *a, *b)) implies covers(
                    goal,
                    parts.sub(pair).insert(c),
                ) by {
                    assert(parts.sub(pair).insert(c) =~= Multiset::singleton(c));
                }
                (op, *a, *b, l, r)
            }
        },
    }
}

/// A multiset within another is no larger.
proof fn lemma_subset_len(small: Multiset<Term>, large: Multiset<Term>)
    requires
        small.subset_of(large),
    ensures
        small.len() <= large.len(),
{
    assert(large =~= small.add(large.sub(small)));
}

/// Two parts of a pool's terms stand at two places of the pool.
proof fn lemma_two_places(pool: Seq<Term>, l: Term, r: Term) -> (places: (int, int))
    requires
        Multiset::singleton(l).add(Multiset::singleton(r)).subset_of(pool.to_multiset()),
    ensures
        0 <= places.0 < pool.len(),
        0 <= places.1 < pool.len(),
        places.0 != places.1,
        pool[places.0] == l,
        pool[places.1] == r,
{
    let pair = Multiset::singleton(l).add(Multiset::singleton(r));
    assert(pair.count(l) >= 1);
    assert(pair.count(r) >= 1);
    pool.to_multiset_ensures();
    assert(pool.to_multiset().count(l) > 0);
    assert(pool.contains(l));
    let p = choose|p: int| 0 <= p < pool.len() && pool[p] == l;
    let mid = pool.remove(p);
    mid.to_multiset_ensures();
    assert(mid.to_multiset() =~= pool.to_multiset().remove(l));
    if r == l {
        assert(pair.count(l) >= 2);
    }
    assert(mid.to_multiset().count(r) > 0);
    assert(mid.contains(r));
    let at = choose|at: int| 0 <= at < mid.len() && mid[at] == r;
    if at < p {
        (p, at)
    } else {
        (p, at + 1)
    }
}

/// What was found stays found when the solutions are added to.
proof fn lemma_finds_persists(early: Tally, late: Tally, goal: Term)
    requires
        finds(early, goal),
        early.solutions.is_prefix_of(late.solutions),
    ensures
        finds(late, goal),
{
    let i = choose|i: int| 0 <= i < early.solutions.len() && similar(#[trigger] early.solutions[i], goal);
    assert(late.solutions[i] == early.solutions[i]);
}

/// If trying the operator on the pair finds the goal, whatever was found
/// before, then so does trying all four.
proof fn lemma_combine_finds(
    rest: Seq<Term>,
    target: usize,
    t: Tally,
    op: Operator,
    a: Term,
    b: Term,
    goal: Term,
)
    requires
        forall|t2: Tally| finds(#[trigger] attempt(rest, target, t2, op, a, b), goal),
    ensures
        finds(combine(rest, target, t, a, b), goal),
{
    let t1 = attempt(rest, target, t, Operator::Addition, a, b);
    let t2 = attempt(rest, target, t1, Operator::Subtraction, a, b);
    let t3 = attempt(rest, target, t2, Operator::Multiplication, a, b);
    let t4 = attempt(rest, target, t3, Operator::Division, a, b);
    lemma_attempt_extends(rest, target, t1, Operator::Subtraction, a, b);
    lemma_attempt_extends(rest, target, t2, Operator::Multiplication, a, b);
    lemma_attempt_extends(rest, target, t3, Operator::Division, a, b);
    match op {
        Operator::Addition => {
            assert(finds(t1, goal));
            lemma_finds_persists(t1, t2, goal);
            lemma_finds_persists(t2, t3, goal);
            lemma_finds_persists(t3, t4, goal);
        },
        Operator::Subtraction => {
            assert(finds(t2, goal));
            lemma_finds_persists(t2, t3, goal);
            lemma_finds_persists(t3, t4, goal);
        },
        Operator::Multiplication => {
            assert(finds(t3, goal));
            lemma_finds_persists(t3, t4, goal);
        },
        Operator::Division => {
            assert(finds(t4, goal));
        },
    }
}

/// If combining the pair at `(i, k)` finds the goal, whatever was found
/// before, then so does combining the pairs from an earlier `(from, to)`
/// onwards.
proof fn lemma_sweep_finds(
    pool: Seq<Term>,
    target: usize,
    t: Tally,
    from: int,
    to: int,
    i: int,
    k: int,
    goal: Term,
)
    requires
        0 <= i < k < pool.len(),
        0 <= from < to <= pool.len(),
        from < i || (from == i && to <= k),
        forall|t1: Tally|
            finds(
                #[trigger] combine(pool.remove(i).remove(k - 1), target, t1, pool[i], pool[k]),
                goal,
            ),
    ensures
        finds(sweep(pool, target, t, from, to), goal),
    decreases pool.len() - from, pool.len() - to,
{
    if to >= pool.len() {
        lemma_sweep_finds(pool, target, t, from + 1, from + 2, i, k, goal);
    } else {
        let rest = pool.remove(from).remove(to - 1);
        let t1 = combine(rest, target, t, pool[from], pool[to]);
        if from == i && to == k {
            lemma_sweep_extends(pool, target, t1, from, to + 1);
            lemma_finds_persists(t1, sweep(pool, target, t1, from, to + 1), goal);
        } else {
            lemma_sweep_finds(pool, target, t1, from, to + 1, i, k, goal);
        }
    }
}

/// Two parts that are similar to the operands of a node stand at two
/// places of a descending pool, `i` before `k`; the rules allow the node's
/// operator on the terms there, in this order, and what it yields is
/// similar to the node.
proof fn lemma_pair_in_pool(
    pool: Seq<Term>,
    op: Operator,
    x: Term,
    y: Term,
    l: Term,
    r: Term,
) -> (places: (int, int))
    requires
        descending(pool),
        x.value >= y.value,
        op.admits(x.value as int, y.value as int),
        0 < op.apply(x.value as int, y.value as int) <= usize::MAX,
        similar(l, x),
        similar(r, y),
        Multiset::singleton(l).add(Multiset::singleton(r)).subset_of(pool.to_multiset()),
    ensures
        0 <= places.0 < places.1 < pool.len(),
        op.admits(pool[places.0].value as int, pool[places.1].value as int),
        similar(Term::derived(op, pool[places.0], pool[places.1]), Term::derived(op, x, y)),
        Multiset::singleton(pool[places.0]).add(Multiset::singleton(pool[places.1]))
            == Multiset::singleton(l).add(Multiset::singleton(r)),
{
    let (p, q) = lemma_two_places(pool, l, r);
    let i = if p < q { p } else { q };
    let k = if p < q { q } else { p };
    let c = Term::derived(op, pool[i], pool[k]);
    let node = Term::derived(op, x, y);
    assert(pool[i].value >= pool[k].value);
    assert(c.value == node.value);
    assert(similar(c, node));
    assert(Multiset::singleton(pool[i]).add(Multiset::singleton(pool[k]))
        =~= Multiset::singleton(l).add(Multiset::singleton(r)));
    (i, k)
}

/// When the terms at two places of a pool give way to a new term at its
/// slot, parts of the pool that held the two and now hold the new term in
/// their place are parts of the new pool, one fewer than before.
proof fn lemma_parts_move(pool: Seq<Term>, i: int, k: int, c: Term, parts: Multiset<Term>)
    requires
        descending(pool),
        0 <= i < k < pool.len(),
        parts.subset_of(pool.to_multiset()),
        Multiset::singleton(pool[i]).add(Multiset::singleton(pool[k])).subset_of(parts),
    ensures
        ({
            let rest = pool.remove(i).remove(k - 1);
            let pair = Multiset::singleton(pool[i]).add(Multiset::singleton(pool[k]));
            let moved = parts.sub(pair).insert(c);
            &&& descending(rest)
            &&& 0 <= slot(rest, c.value, 0) <= rest.len()
            &&& descending(rest.insert(slot(rest, c.value, 0), c))
            &&& moved.subset_of(rest.insert(slot(rest, c.value, 0), c).to_multiset())
            &&& moved.len() == parts.len() - 1
            &&& moved.count(c) >= 1
            &&& parts.len() <= pool.len()
        }),
{
    let a = pool[i];
    let b = pool[k];
    let mid = pool.remove(i);
    let rest = mid.remove(k - 1);
    let pair = Multiset::singleton(a).add(Multiset::singleton(b));
    let moved = parts.sub(pair).insert(c);
    assert(mid[k - 1] == b);
    lemma_remove_descending(pool, i);
    lemma_remove_descending(mid, k - 1);
    lemma_slot(rest, c.value, 0);
    let at = slot(rest, c.value, 0);
    let entered = rest.insert(at, c);
    lemma_enter_descending(rest, c);
    pool.to_multiset_ensures();
    mid.to_multiset_ensures();
    rest.to_multiset_ensures();
    entered.to_multiset_ensures();
    assert(mid.to_multiset() =~= pool.to_multiset().remove(a));
    assert(rest.to_multiset() =~= mid.to_multiset().remove(b));
    assert(rest.to_multiset() =~= pool.to_multiset().sub(pair));
    assert(entered.remove(at) =~= rest);
    assert(entered.contains(c)) by {
        assert(entered[at] == c);
    }
    assert(entered.to_multiset() =~= rest.to_multiset().insert(c));
    assert(parts =~= parts.sub(pair).add(pair));
    lemma_subset_len(parts, pool.to_multiset());
}

/// Trying an operator that yields a part of the goal finds the goal: at
/// once, if that part is all of it, and else in the search one level down,
/// where the other parts are in the pool.
proof fn lemma_attempt_finds(
    rest: Seq<Term>,
    target: usize,
    t: Tally,
    op: Operator,
    a: Term,
    b: Term,
    goal: Term,
    parts: Multiset<Term>,
)
    requires
        descending(rest),
        goal.well_formed(),
        goal.value == target,
        op.admits(a.value as int, b.value as int),
        covers(goal, parts),
        parts.count(Term::derived(op, a, b)) >= 1,
        parts.len() >= 2 ==> rest.len() > 0 && descending(
            rest.insert(slot(rest, Term::derived(op, a, b).value, 0), Term::derived(op, a, b)),
        ) && parts.subset_of(
            rest.insert(
                slot(rest, Term::derived(op, a, b).value, 0),
                Term::derived(op, a, b),
            ).to_multiset(),
        ),
    ensures
        finds(attempt(rest, target, t, op, a, b), goal),
    decreases rest.len() + 2, 0int,
{
    let c = Term::derived(op, a, b);
    let t1 = record(t, c, target);
    lemma_slot(rest, c.value, 0);
    let entered = rest.insert(slot(rest, c.value, 0), c);
    lemma_covers_nonempty(goal, parts);
    if parts.len() == 1 {
        let only = lemma_covers_single(goal, parts);
        assert(only == c);
        let at = if t.solutions.contains(c) {
            choose|j: int| 0 <= j < t.solutions.len() && t.solutions[j] == c
        } else {
            t.solutions.len() as int
        };
        assert(similar(t1.solutions[at], goal));
        if rest.len() > 0 {
            lemma_search_extends(entered, target, t1);
            lemma_finds_persists(t1, search(entered, target, t1), goal);
        }
    } else {
        lemma_search_finds(entered, target, t1, goal, parts);
    }
}

/// A search finds every well-formed term with the target's value that can
/// be put together from two or more terms of the pool, each used at most as
/// often as the pool holds it: a term similar to it is among the solutions
/// afterwards.
pub proof fn lemma_search_finds(
    pool: Seq<Term>,
    target: usize,
    t: Tally,
    goal: Term,
    parts: Multiset<Term>,
)
    requires
        descending(pool),
        goal.well_formed(),
        goal.value == target,
        covers(goal, parts),
        parts.len() >= 2,
        parts.subset_of(pool.to_multiset()),
    ensures
        finds(search(pool, target, t), goal),
    decreases pool.len(), 1int,
{
    let (op, x, y, l, r) = lemma_find_pair(goal, parts);
    let (i, k) = lemma_pair_in_pool(pool, op, x, y, l, r);
    let a = pool[i];
    let b = pool[k];
    let rest = pool.remove(i).remove(k - 1);
    let c = Term::derived(op, a, b);
    let pair = Multiset::singleton(a).add(Multiset::singleton(b));
    let moved = parts.sub(pair).insert(c);
    lemma_parts_move(pool, i, k, c, parts);
    assert(covers(goal, moved));
    assert forall|t2: Tally| finds(#[trigger] attempt(rest, target, t2, op, a, b), goal) by {
        lemma_attempt_finds(rest, target, t2, op, a, b, goal, moved);
    }
    assert forall|t1: Tally| finds(#[trigger] combine(rest, target, t1, a, b), goal) by {
        lemma_combine_finds(rest, target, t1, op, a, b, goal);
    }
    lemma_sweep_finds(pool, target, t, 0, 1, i, k, goal);
}

/// A search finds every expression over the pool's starting terms that the
/// rules allow and that has the target's value: for every well-formed
/// derived term with that value whose leaves are terms of the pool, none
/// taken more often than the pool holds it, a term similar to it is among
/// the solutions afterwards.
pub proof fn lemma_search_complete(pool: Seq<Term>, target: usize, t: Tally, goal: Term)
    requires
        descending(pool),
        goal.well_formed(),
        goal.expression is Some,
        goal.value == target,
        goal.leaves().subset_of(pool.to_multiset()),
    ensures
        finds(search(pool, target, t), goal),
{
    lemma_leaves_cover(goal);
    lemma_search_finds(pool, target, t, goal, goal.leaves());
}

} // verus!
