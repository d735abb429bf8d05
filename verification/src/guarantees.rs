//! What a solver guarantees for the numbers it was made for: its solutions
//! are sound, made of the numbers, and complete, and they depend on the
//! numbers and the target alone.
use crate::bounds::acceptable;
use crate::complete::{finds, lemma_search_complete};
use crate::search::{lemma_slot, slot};
use crate::solver::{arrange, initial, lemma_arrange, lemma_inv_sound, SolverView};
use crate::term::Term;
use crate::theory::{
    lemma_search_again, lemma_search_counts, lemma_search_extends, lemma_search_keeps,
    pool_leaves,
};
use vstd::multiset::Multiset;
use vstd::prelude::*;

verus! {

/// The leaves of a pool of starting terms are its terms.
proof fn lemma_starting_pool_leaves(pool: Seq<Term>)
    requires
        forall|i: int| 0 <= i < pool.len() ==> (#[trigger] pool[i]).expression is None,
    ensures
        pool_leaves(pool) == pool.to_multiset(),
    decreases pool.len(),
{
    if pool.len() == 0 {
        assert(pool.to_multiset() =~= Multiset::empty()) by {
            pool.to_multiset_ensures();
        }
    } else {
        let front = pool.drop_last();
        lemma_starting_pool_leaves(front);
        front.to_multiset_ensures();
        assert(pool =~= front.push(pool.last()));
        assert(pool.to_multiset() =~= front.to_multiset().insert(pool.last()));
        assert(pool_leaves(pool) =~= pool.to_multiset());
    }
}

/// The starting pool holds the starting term of a number as often as the
/// number was given, and nothing but starting terms.
proof fn lemma_arrange_counts(numbers: Seq<usize>, t: Term)
    ensures
        t.expression is None ==> arrange(numbers).to_multiset().count(t)
            == numbers.to_multiset().count(t.value),
        t.expression is Some ==> arrange(numbers).to_multiset().count(t) == 0,
    decreases numbers.len(),
{
    if numbers.len() == 0 {
        assert(arrange(numbers).to_multiset() =~= Multiset::empty()) by {
            arrange(numbers).to_multiset_ensures();
        }
        assert(numbers.to_multiset() =~= Multiset::empty()) by {
            numbers.to_multiset_ensures();
        }
    } else {
        let before = numbers.drop_last();
        let front = arrange(before);
        let last = numbers.last();
        let c = Term::atom(last);
        lemma_arrange_counts(before, t);
        lemma_slot(front, last, 0);
        let at = slot(front, last, 0);
        let pool = front.insert(at, c);
        pool.to_multiset_ensures();
        front.to_multiset_ensures();
        before.to_multiset_ensures();
        assert(pool.remove(at) =~= front);
        assert(pool.contains(c)) by {
            assert(pool[at] == c);
        }
        assert(pool.to_multiset() =~= front.to_multiset().insert(c));
        assert(numbers =~= before.push(last));
        assert(numbers.to_multiset() =~= before.to_multiset().insert(last));
        if t.expression is None {
            assert(t == c <==> t.value == last);
        }
    }
}

/// Every solution of a solver that was made for numbers it accepts, and has
/// searched once, evaluates to the target, with a positive integer at every
/// node of its tree and the larger operand on the left of each; and no two
/// solutions are the same expression.
pub proof fn lemma_run_sound(numbers: Seq<usize>, target: usize)
    requires
        acceptable(numbers),
    ensures
        initial(numbers, target).run().inv(),
        initial(numbers, target).run().sound(),
        initial(numbers, target).run().distinct(),
{
    let start = initial(numbers, target);
    lemma_arrange(numbers);
    assert(start.inv());
    lemma_search_keeps(start.pool, target, start.tally());
    lemma_inv_sound(start.run());
}

/// Every solution of a solver that was made for the numbers, and has
/// searched once, is made of the numbers, none of them taken more often
/// than it was given.
pub proof fn lemma_run_within_numbers(numbers: Seq<usize>, target: usize, i: int)
    requires
        0 <= i < initial(numbers, target).run().solutions.len(),
    ensures
        initial(numbers, target).run().solutions[i].numbers().subset_of(numbers.to_multiset()),
{
    let start = initial(numbers, target);
    let solution = start.run().solutions[i];
    lemma_arrange(numbers);
    lemma_starting_pool_leaves(start.pool);
    lemma_search_extends(start.pool, target, start.tally());
    assert(solution.leaves().subset_of(start.pool.to_multiset()));
    assert forall|v: usize| solution.numbers().count(v) <= numbers.to_multiset().count(v) by {
        solution.lemma_leaves_are_numbers(Term::atom(v));
        lemma_arrange_counts(numbers, Term::atom(v));
        assert(solution.leaves().count(Term::atom(v)) <= start.pool.to_multiset().count(
            Term::atom(v),
        ));
    }
}

/// A solver that was made for the numbers, and has searched once, has found
/// every expression over the numbers that the rules allow and that has the
/// target's value: for every well-formed derived term with that value that
/// takes none of the numbers more often than it was given, a term similar to
/// it is among the solutions.
pub proof fn lemma_run_complete(numbers: Seq<usize>, target: usize, goal: Term)
    requires
        goal.well_formed(),
        goal.expression is Some,
        goal.value == target,
        goal.numbers().subset_of(numbers.to_multiset()),
    ensures
        finds(initial(numbers, target).run().tally(), goal),
{
    let start = initial(numbers, target);
    lemma_arrange(numbers);
    assert forall|leaf: Term| goal.leaves().count(leaf) <= start.pool.to_multiset().count(
        leaf,
    ) by {
        goal.lemma_leaves_are_numbers(leaf);
        lemma_arrange_counts(numbers, leaf);
    }
    lemma_search_complete(start.pool, target, start.tally(), goal);
}

/// A second search of the same pool finds nothing new and takes as many
/// steps as the first.
pub proof fn lemma_run_again(v: SolverView)
    ensures
        v.run().run().solutions == v.run().solutions,
        v.run().run().pool == v.pool,
        v.run().run().counter - v.run().counter == v.run().counter - v.counter,
{
    lemma_search_again(v.pool, v.target, v.tally(), v.run().tally());
    lemma_search_counts(v.pool, v.target, v.tally(), v.run().tally());
}

/// Two solvers that were made for the same numbers and the same target, and
/// have each searched once, hold the same solutions in the same order,
/// written the same way, and the same count; and their pools are again the
/// pool that both started from.
pub proof fn lemma_same_input_same_result(
    numbers: Seq<usize>,
    target: usize,
    first: SolverView,
    second: SolverView,
)
    requires
        first == initial(numbers, target).run(),
        second == initial(numbers, target).run(),
    ensures
        first.solutions == second.solutions,
        first.counter == second.counter,
        first.pool == arrange(numbers),
        second.pool == arrange(numbers),
        forall|i: int|
            0 <= i < first.solutions.len() ==> first.solutions[i].rendering()
                == second.solutions[i].rendering(),
{
}

} // verus!
