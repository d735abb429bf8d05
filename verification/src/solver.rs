//! The solver: a pool of terms that is combined pair by pair, depth first,
//! and put back as it was after every step.
use crate::bounds::{
    acceptable, allowance, factor, reach, reach_within, steps, steps_within,
};
use crate::search::{
    attempt, combine, descending, fit, kept, lemma_derived_fits, lemma_enter_descending,
    lemma_enter_fits, lemma_record_keeps, lemma_remove_fits, lemma_slot,
    lemma_span_insert, lemma_span_remove, record, search, slot, span, sweep, Tally,
};
use crate::term::{Expr, Operator, Term};
use vstd::prelude::*;

verus! {

/// The state of a solver, as the contracts see it.
pub struct SolverView {
    /// The terms that are available for combining, largest value first.
    pub pool: Seq<Term>,
    /// The distinct solutions, in the order in which they were first found.
    pub solutions: Seq<Term>,
    /// The value that a solution must have.
    pub target: usize,
    /// How many operator applications were carried out.
    pub counter: nat,
}

impl SolverView {
    /// The part of the state that a search adds to.
    pub open spec fn tally(self) -> Tally {
        Tally { solutions: self.solutions, counter: self.counter }
    }

    /// What every solver maintains: the pool is fit for a search, and the
    /// solutions are well-formed terms with the target as their value, each
    /// of them once.
    pub open spec fn inv(self) -> bool {
        fit(self.pool) && kept(self.tally(), self.target)
    }

    /// Every solution evaluates to the target, with a positive integer at
    /// every node of its tree and the larger operand on the left of each.
    pub open spec fn sound(self) -> bool {
        forall|i: int|
            0 <= i < self.solutions.len() ==> {
                let s = #[trigger] self.solutions[i];
                s.eval() == self.target && s.positive_throughout() && s.ordered()
            }
    }

    /// No two solutions are the same expression.
    pub open spec fn distinct(self) -> bool {
        forall|i: int, j: int|
            0 <= i < self.solutions.len() && 0 <= j < self.solutions.len() && i != j
                ==> self.solutions[i] != self.solutions[j]
    }

    /// The state after a full search: the pool and the target are as before,
    /// the solutions and the counter are those of the search.
    pub open spec fn run(self) -> SolverView {
        let t = search(self.pool, self.target, self.tally());
        SolverView { pool: self.pool, solutions: t.solutions, target: self.target, counter: t.counter }
    }
}

/// The pool that a solver starts from: one starting term for each number,
/// largest value first. Terms of equal value are equal, so no order among
/// them can be told.
pub open spec fn arrange(numbers: Seq<usize>) -> Seq<Term>
    decreases numbers.len(),
{
    if numbers.len() == 0 {
        Seq::empty()
    } else {
        let front = arrange(numbers.drop_last());
        front.insert(slot(front, numbers.last(), 0), Term::atom(numbers.last()))
    }
}

/// The state of a solver that was just made for the numbers and the target.
pub open spec fn initial(numbers: Seq<usize>, target: usize) -> SolverView {
    SolverView { pool: arrange(numbers), solutions: Seq::empty(), target, counter: 0 }
}

/// The starting pool holds one starting term for each of the numbers and no
/// other, in descending order, and its span is the reach of the numbers.
pub proof fn lemma_arrange(numbers: Seq<usize>)
    ensures
        arrange(numbers).len() == numbers.len(),
        descending(arrange(numbers)),
        forall|i: int|
            0 <= i < numbers.len() ==> (#[trigger] arrange(numbers)[i]).expression is None,
        arrange(numbers).map_values(|t: Term| t.value).to_multiset() == numbers.to_multiset(),
        span(arrange(numbers)) == reach(numbers),
        (forall|i: int| 0 <= i < numbers.len() ==> numbers[i] >= 1) ==> forall|i: int|
            0 <= i < numbers.len() ==> (#[trigger] arrange(numbers)[i]).well_formed(),
    decreases numbers.len(),
{
    broadcast use vstd::seq_lib::group_to_multiset_ensures;

    let values = |t: Term| t.value;
    if numbers.len() == 0 {
        assert(arrange(numbers).map_values(values) =~= numbers);
    } else {
        let front = arrange(numbers.drop_last());
        let last = numbers.last();
        let c = Term::atom(last);
        let p = slot(front, last, 0);
        lemma_arrange(numbers.drop_last());
        lemma_slot(front, last, 0);
        lemma_enter_descending(front, c);
        lemma_span_insert(front, p, c);
        let pool = front.insert(p, c);
        assert(pool == arrange(numbers));
        assert forall|i: int| 0 <= i < numbers.len() implies (#[trigger] pool[i]).expression
            is None by {
            if i < p {
                assert(pool[i] == front[i]);
            } else if i > p {
                assert(pool[i] == front[i - 1]);
            }
        }
        if forall|i: int| 0 <= i < numbers.len() ==> numbers[i] >= 1 {
            assert forall|i: int| 0 <= i < numbers.len() implies (#[trigger] pool[i]).well_formed() by {
                if i < p {
                    assert(pool[i] == front[i]);
                    assert(numbers.drop_last()[i] >= 1);
                } else if i > p {
                    assert(pool[i] == front[i - 1]);
                    assert(numbers.drop_last()[i - 1] >= 1);
                } else {
                    assert(numbers[numbers.len() - 1] >= 1);
                }
            }
        }
        assert(pool.map_values(values).remove(p) =~= front.map_values(values));
        assert(pool.map_values(values)[p] == last);
        assert(numbers =~= numbers.drop_last().push(last));
        assert(pool.map_values(values).to_multiset() =~= numbers.to_multiset());
    }
}

/// A state that every operation maintains holds only solutions that
/// evaluate to the target through positive integers, each of them once.
pub proof fn lemma_inv_sound(v: SolverView)
    requires
        v.inv(),
    ensures
        v.sound(),
        v.distinct(),
{
    assert forall|i: int| 0 <= i < v.solutions.len() implies {
        let s = #[trigger] v.solutions[i];
        s.eval() == v.target && s.positive_throughout() && s.ordered()
    } by {
        v.solutions[i].lemma_well_formed_evaluates();
    }
}

/// The solver for one puzzle: the pool of terms that remain to be combined,
/// the solutions found so far, the target and the count of operator
/// applications.
#[derive(Debug)]
pub struct Solver {
    remaining: Vec<Term>,
    solutions: Vec<Term>,
    target: usize,
    counter: usize,
}

impl View for Solver {
    type V = SolverView;

    closed spec fn view(&self) -> SolverView {
        SolverView {
            pool: self.remaining@,
            solutions: self.solutions@,
            target: self.target,
            counter: self.counter as nat,
        }
    }
}

impl Solver {
    /// The solver's state is one that every operation maintains.
    pub open spec fn inv(&self) -> bool {
        self@.inv()
    }

    /// Whether a solver can be made for the numbers.
    pub fn accepts(numbers: &[usize]) -> (ok: bool)
        ensures
            ok == acceptable(numbers@),
    {
        let mut i: usize = 0;
        while i < numbers.len()
            invariant
                i <= numbers.len(),
                forall|m: int| 0 <= m < i ==> numbers[m] >= 1,
            decreases numbers.len() - i,
        {
            if numbers[i] == 0 {
                return false;
            }
            i += 1;
        }
        reach_within(numbers).is_some() && steps_within(numbers.len()).is_some()
    }

    /// Makes a solver for the numbers and the target: the pool holds one
    /// starting term for each number, largest first, and nothing has been
    /// found or counted yet.
    pub fn new(numbers: &[usize], target: usize) -> (solver: Solver)
        requires
            acceptable(numbers@),
        ensures
            solver@ == initial(numbers@, target),
            solver.inv(),
            solver@.counter + steps(solver@.pool.len()) <= usize::MAX,
    {
        let mut solver = Solver {
            remaining: Vec::new(),
            solutions: Vec::new(),
            target,
            counter: 0,
        };
        let mut i: usize = 0;
        assert(numbers@.take(0) =~= Seq::empty());
        while i < numbers.len()
            invariant
                i <= numbers.len(),
                solver.remaining@ == arrange(numbers@.take(i as int)),
                solver.solutions@ == Seq::<Term>::empty(),
                solver.target == target,
                solver.counter == 0,
            decreases numbers.len() - i,
        {
            let value = numbers[i];
            let pos = solver.find_slot(value);
            solver.remaining.insert(pos, Term::atomic(value));
            assert(numbers@.take(i + 1).drop_last() =~= numbers@.take(i as int));
            i += 1;
        }
        proof {
            assert(numbers@.take(i as int) =~= numbers@);
            lemma_arrange(numbers@);
        }
        solver
    }

    /// The terms that are available for combining, largest value first.
    pub fn remaining(&self) -> (pool: &[Term])
        ensures
            pool@ == self@.pool,
    {
        self.remaining.as_slice()
    }

    /// The distinct solutions, in the order in which they were first found.
    pub fn solutions(&self) -> (found: &[Term])
        ensures
            found@ == self@.solutions,
    {
        self.solutions.as_slice()
    }

    /// The value that a solution must have.
    pub fn target(&self) -> (target: usize)
        ensures
            target == self@.target,
    {
        self.target
    }

    /// How many operator applications were carried out.
    pub fn counter(&self) -> (counter: usize)
        ensures
            counter == self@.counter,
    {
        self.counter
    }

    /// The index at which a term of the given value enters the pool.
    fn find_slot(&self, value: usize) -> (pos: usize)
        ensures
            pos == slot(self@.pool, value, 0),
            pos <= self@.pool.len(),
    {
        let mut pos: usize = 0;
        while pos < self.remaining.len() && self.remaining[pos].value > value
            invariant
                pos <= self.remaining.len(),
                slot(self.remaining@, value, pos as int) == slot(self.remaining@, value, 0),
            decreases self.remaining.len() - pos,
        {
            pos += 1;
        }
        proof {
            lemma_slot(self.remaining@, value, 0);
        }
        pos
    }

    /// Whether the term is among the solutions already.
    fn is_known(&self, c: &Term) -> (known: bool)
        ensures
            known == self@.solutions.contains(*c),
    {
        let mut k: usize = 0;
        while k < self.solutions.len()
            invariant
                k <= self.solutions.len(),
                forall|m: int| 0 <= m < k ==> self.solutions@[m] != *c,
            decreases self.solutions.len() - k,
        {
            if self.solutions[k] == *c {
                return true;
            }
            k += 1;
        }
        false
    }

    /// Counts one operator application and keeps its result as a solution
    /// if it has the target's value and is not among the solutions yet.
    fn note(&mut self, c: &Term)
        requires
            old(self).inv(),
            c.well_formed(),
            old(self)@.counter + 1 <= usize::MAX,
        ensures
            final(self).inv(),
            final(self)@.pool == old(self)@.pool,
            final(self)@.target == old(self)@.target,
            final(self)@.tally() == record(old(self)@.tally(), *c, old(self)@.target),
    {
        proof {
            lemma_record_keeps(self@.tally(), *c, self@.target);
        }
        self.counter = self.counter + 1;
        if c.value == self.target && !self.is_known(c) {
            let found = c.clone();
            self.solutions.push(found);
        }
    }

    /// Puts a new term into the pool at its slot, searches the pool one
    /// level down and takes the term out again.
    fn descend(&mut self, c: Term) -> (back: Term)
        requires
            old(self).inv(),
            c.well_formed(),
            span(old(self)@.pool) * factor(c.value) <= usize::MAX,
            old(self)@.counter + steps((old(self)@.pool.len() + 1) as nat) <= usize::MAX,
        ensures
            back == c,
            final(self).inv(),
            final(self)@.pool == old(self)@.pool,
            final(self)@.target == old(self)@.target,
            final(self)@.tally() == search(
                old(self)@.pool.insert(slot(old(self)@.pool, c.value, 0), c),
                old(self)@.target,
                old(self)@.tally(),
            ),
            final(self)@.counter <= old(self)@.counter + steps(
                (old(self)@.pool.len() + 1) as nat,
            ),
        decreases old(self)@.pool.len() + 2, 0int, 0int, 0int,
    {
        let pos = self.find_slot(c.value);
        proof {
            lemma_enter_fits(self@.pool, c);
        }
        self.remaining.insert(pos, c);
        self.solve();
        let back = self.remaining.remove(pos);
        assert(self@.pool =~= old(self)@.pool);
        back
    }

    /// Tries one operator on a pair of terms that were taken out of the pool,
    /// the larger one first, and hands the pair back.
    ///
    /// Where the rules allow the operator, the new term is counted, kept as a
    /// solution if it has the target's value and is new, and, unless the pool
    /// is empty, put into the pool for a search one level down and taken out
    /// again. The pool is left as it was found.
    pub fn try_expr(&mut self, expr: Expr) -> (back: Expr)
        requires
            old(self).inv(),
            expr.1.well_formed(),
            expr.2.well_formed(),
            expr.1.value >= expr.2.value,
            span(old(self)@.pool) * factor(expr.1.value) * factor(expr.2.value) <= usize::MAX,
            old(self)@.counter + 1 + steps((old(self)@.pool.len() + 1) as nat) <= usize::MAX,
        ensures
            back == expr,
            final(self).inv(),
            final(self)@.pool == old(self)@.pool,
            final(self)@.target == old(self)@.target,
            final(self)@.tally() == attempt(
                old(self)@.pool,
                old(self)@.target,
                old(self)@.tally(),
                expr.0,
                *expr.1,
                *expr.2,
            ),
            final(self)@.counter <= old(self)@.counter + 1 + steps(
                (old(self)@.pool.len() + 1) as nat,
            ),
        decreases old(self)@.pool.len() + 2, 1int, 0int, 0int,
    {
        let (op, a, b) = expr;
        let x = a.value;
        let y = b.value;
        proof {
            if op.admits(x as int, y as int) {
                lemma_derived_fits(self@.pool, op, *a, *b);
            }
        }
        match op.compute(x, y) {
            None => (op, a, b),
            Some(value) => {
                let c = Term { expression: Some((op, a, b)), value };
                assert(c == Term::derived(expr.0, *expr.1, *expr.2));
                self.note(&c);
                let c = if self.remaining.len() > 0 {
                    self.descend(c)
                } else {
                    c
                };
                c.expression.unwrap()
            },
        }
    }

    /// Tries the four operators on a pair of terms that were taken out of
    /// the pool, the larger one first, and hands the pair back.
    fn try_pair(&mut self, left: Box<Term>, right: Box<Term>) -> (back: (Box<Term>, Box<Term>))
        requires
            old(self).inv(),
            left.well_formed(),
            right.well_formed(),
            left.value >= right.value,
            span(old(self)@.pool) * factor(left.value) * factor(right.value) <= usize::MAX,
            old(self)@.counter + 4 * (1 + steps((old(self)@.pool.len() + 1) as nat))
                <= usize::MAX,
        ensures
            back == (left, right),
            final(self).inv(),
            final(self)@.pool == old(self)@.pool,
            final(self)@.target == old(self)@.target,
            final(self)@.tally() == combine(
                old(self)@.pool,
                old(self)@.target,
                old(self)@.tally(),
                *left,
                *right,
            ),
            final(self)@.counter <= old(self)@.counter + 4 * (1 + steps(
                (old(self)@.pool.len() + 1) as nat,
            )),
        decreases old(self)@.pool.len() + 2, 2int, 0int, 0int,
    {
        let expr = self.try_expr((Operator::Addition, left, right));
        let expr = self.try_expr((Operator::Subtraction, expr.1, expr.2));
        let expr = self.try_expr((Operator::Multiplication, expr.1, expr.2));
        let expr = self.try_expr((Operator::Division, expr.1, expr.2));
        (expr.1, expr.2)
    }

    /// Runs the full search: finds every expression over the numbers that
    /// has the target's value. The solutions and the count are read from the
    /// solver afterwards; the pool is left as it was found.
    ///
    /// A solver that `new` has made meets what is required here.
    pub fn run(&mut self)
        requires
            old(self).inv(),
            old(self)@.counter + steps(old(self)@.pool.len()) <= usize::MAX,
        ensures
            final(self)@ == old(self)@.run(),
            final(self)@.pool == old(self)@.pool,
            final(self)@.sound(),
            final(self)@.distinct(),
            final(self).inv(),
            final(self)@.counter <= old(self)@.counter + steps(old(self)@.pool.len()),
    {
        self.solve();
    }

    /// One pass of the search over the pool as it stands: the full search,
    /// or the search one level down with a new term in the pool.
    ///
    /// Every pair of pool positions is taken out once, the earlier position
    /// as the left operand, and tried with the four operators; then the pair
    /// is put back. The pool is left as it was found.
    pub fn solve(&mut self)
        requires
            old(self).inv(),
            old(self)@.counter + steps(old(self)@.pool.len()) <= usize::MAX,
        ensures
            final(self)@ == old(self)@.run(),
            final(self)@.pool == old(self)@.pool,
            final(self)@.sound(),
            final(self)@.distinct(),
            final(self).inv(),
            final(self)@.counter <= old(self)@.counter + steps(old(self)@.pool.len()),
        decreases old(self)@.pool.len(), 3int, 0int, 0int,
    {
        let ghost pool0 = self@.pool;
        let ghost target = self@.target;
        let ghost goal = search(pool0, target, self@.tally());
        let ghost limit = self@.counter + steps(pool0.len());
        let n = self.remaining.len();
        let mut i: usize = 0;
        while i < n
            invariant
                i <= n,
                n == pool0.len(),
                pool0.len() == old(self)@.pool.len(),
                self.inv(),
                self@.pool == pool0,
                self@.target == target,
                sweep(pool0, target, self@.tally(), i as int, i + 1) == goal,
                self@.counter + allowance(n as nat, i as int, i + 1) <= limit,
                limit <= usize::MAX,
            decreases n - i,
        {
            let ghost mid = pool0.remove(i as int);
            proof {
                lemma_remove_fits(self@.pool, i as int);
            }
            let a = self.remaining.remove(i);
            let mut left: Box<Term> = Box::new(a);
            let mut j: usize = i;
            while j < self.remaining.len()
                invariant
                    i < n,
                    i <= j <= n - 1,
                    n == pool0.len(),
                    pool0.len() == old(self)@.pool.len(),
                    mid == pool0.remove(i as int),
                    self.inv(),
                    self@.pool == mid,
                    *left == pool0[i as int],
                    self@.target == target,
                    left.well_formed(),
                    forall|m: int| i <= m < mid.len() ==> left.value >= mid[m].value,
                    span(mid) * factor(left.value) <= usize::MAX,
                    sweep(pool0, target, self@.tally(), i as int, j + 1) == goal,
                    self@.counter + allowance(n as nat, i as int, j + 1) <= limit,
                    limit <= usize::MAX,
                decreases n - j,
            {
                let ghost rest = mid.remove(j as int);
                proof {
                    lemma_remove_fits(self@.pool, j as int);
                    lemma_span_remove(mid, j as int);
                    assert(mid[j as int] == pool0[j + 1]);
                    let sr = span(rest);
                    let x = factor(left.value);
                    let y = factor(mid[j as int].value);
                    assert(sr * x * y == (sr * y) * x) by (nonlinear_arith);
                }
                let b = self.remaining.remove(j);
                let right: Box<Term> = Box::new(b);
                let (l, r) = self.try_pair(left, right);
                self.remaining.insert(j, *r);
                left = l;
                assert(self@.pool =~= mid);
                j += 1;
            }
            self.remaining.insert(i, *left);
            assert(self@.pool =~= pool0);
            i += 1;
        }
        proof {
            lemma_inv_sound(self@);
        }
    }
}

} // verus!
