//! How far a search can go: the largest value it can build and the number
//! of steps it can take, and whether both fit the machine.
use vstd::prelude::*;

verus! {

/// An upper bound on the operator applications of a search over `n` terms.
pub open spec fn steps(n: nat) -> nat
    decreases n, 1int, 0int, 0int,
{
    allowance(n, 0, 1)
}

/// The share of `steps(n)` that falls to the pairs from `(i, k)` onwards:
/// four applications for each pair, each followed by a search over `n - 1`
/// terms.
pub open spec fn allowance(n: nat, i: int, k: int) -> nat
    decreases n, 0int, n - i, n - k,
{
    if i < 0 || k <= i || i + 1 >= n {
        0
    } else if k >= n {
        allowance(n, i + 1, i + 2)
    } else {
        4 * (1 + steps((n - 1) as nat)) + allowance(n, i, k + 1)
    }
}

/// What a number adds to the reach of the numbers it stands among: itself
/// as a factor, but a one counts as two, for it can be added where
/// multiplying by it gains nothing.
pub open spec fn factor(value: usize) -> int {
    if value < 2 {
        2
    } else {
        value as int
    }
}

/// The product of the numbers, with a one counted as two. No expression
/// over the numbers has a larger value, and where no number is a one, the
/// product of them all has exactly this value.
pub open spec fn reach(numbers: Seq<usize>) -> int
    decreases numbers.len(),
{
    if numbers.len() == 0 {
        1
    } else {
        reach(numbers.drop_last()) * factor(numbers.last())
    }
}

/// The numbers that a solver can be made for: all of them are positive, and
/// neither a value in the search nor the count of its steps can leave `usize`.
pub open spec fn acceptable(numbers: Seq<usize>) -> bool {
    &&& forall|i: int| 0 <= i < numbers.len() ==> numbers[i] >= 1
    &&& reach(numbers) <= usize::MAX
    &&& steps(numbers.len()) <= usize::MAX
}

/// Twice the allowance from `(i, k)` onwards is the cost of one pair times
/// twice the number of the pairs that are left.
proof fn lemma_allowance_counts(n: nat, i: int, k: int)
    requires
        0 <= i < k <= n,
        i + 1 < n,
    ensures
        2 * allowance(n, i, k) == 4 * (1 + steps((n - 1) as nat)) * (2 * (n - k) + (n - 2 - i) * (n
            - 1 - i)),
    decreases n - i, n - k,
{
    let u = 4 * (1 + steps((n - 1) as nat)) as int;
    let rows = (n - 2 - i) * (n - 1 - i);
    if k >= n {
        if i + 2 < n {
            lemma_allowance_counts(n, i + 1, i + 2);
            let below = (n - 3 - i) * (n - 2 - i);
            assert(2 * (n - (i + 2)) + below == rows) by (nonlinear_arith)
                requires
                    below == (n - 3 - i) * (n - 2 - i),
                    rows == (n - 2 - i) * (n - 1 - i),
            ;
        } else {
            assert(allowance(n, i + 1, i + 2) == 0);
            assert(rows == 0) by (nonlinear_arith)
                requires
                    rows == (n - 2 - i) * (n - 1 - i),
                    i + 2 == n,
            ;
            assert(u * (2 * (n - k) + rows) == 0) by (nonlinear_arith)
                requires
                    rows == 0,
                    k == n,
            ;
        }
    } else {
        lemma_allowance_counts(n, i, k + 1);
        let later = 2 * (n - (k + 1)) + rows;
        assert(2 * u + u * later == u * (2 * (n - k) + rows)) by (nonlinear_arith)
            requires
                later == 2 * (n - (k + 1)) + rows,
        ;
    }
}

/// The bound on the steps of a search over `n` terms, in closed form: each
/// of the `n * (n - 1) / 2` pairs is tried with four operators, and each of
/// these can lead to a search over `n - 1` terms.
pub proof fn lemma_steps_closed_form(n: nat)
    requires
        n >= 1,
    ensures
        steps(n) == 2 * n * (n - 1) * (1 + steps((n - 1) as nat)),
{
    let s = steps((n - 1) as nat) as int;
    if n == 1 {
        assert(steps(1) == 0);
        assert(2 * n * (n - 1) * (1 + s) == 0) by (nonlinear_arith)
            requires
                n == 1,
        ;
    } else {
        lemma_allowance_counts(n, 0, 1);
        let pairs = 2 * (n - 1) + (n - 2) * (n - 1);
        assert(2 * steps(n) == 4 * (1 + s) * pairs);
        assert(4 * (1 + s) * pairs == 2 * (2 * n * (n - 1) * (1 + s))) by (nonlinear_arith)
            requires
                pairs == 2 * (n - 1) + (n - 2) * (n - 1),
        ;
    }
}

/// A search over six terms takes 3516060 steps at most.
pub proof fn lemma_steps_of_six()
    ensures
        steps(6) == 3516060,
{
    assert(steps(0) == 0);
    assert(steps(1) == 0);
    lemma_steps_next(2, 0, 4);
    lemma_steps_next(3, 4, 60);
    lemma_steps_next(4, 60, 1464);
    lemma_steps_next(5, 1464, 58600);
    lemma_steps_next(6, 58600, 3516060);
}

/// One step of the closed form, with the bound for one term less at hand.
proof fn lemma_steps_next(n: nat, below: nat, bound: nat)
    requires
        n >= 1,
        steps((n - 1) as nat) == below,
        bound == 2 * n * (n - 1) + 2 * n * (n - 1) * below,
    ensures
        steps(n) == bound,
{
    lemma_steps_closed_form(n);
    let m = n as int;
    let b = below as int;
    assert(2 * m * (m - 1) * (1 + b) == 2 * m * (m - 1) + 2 * m * (m - 1) * b) by (nonlinear_arith);
}

/// From two terms on, a search over one more term can take more steps: at
/// least four, each followed by a search over the terms before.
pub proof fn lemma_steps_grow(n: nat)
    requires
        n >= 1,
    ensures
        steps(n + 1) >= 4 * (1 + steps(n)),
{
    assert(allowance(n + 1, 0, 1) == 4 * (1 + steps(n)) + allowance(n + 1, 0, 2));
}

/// The bound on the steps of a search grows with the number of terms.
pub proof fn lemma_steps_monotonic(a: nat, b: nat)
    requires
        a <= b,
    ensures
        steps(a) <= steps(b),
    decreases b,
{
    if a < b {
        lemma_steps_monotonic(a, (b - 1) as nat);
        if b >= 2 {
            lemma_steps_grow((b - 1) as nat);
        } else {
            assert(steps(0) == 0);
            assert(steps(1) == 0);
        }
    }
}

/// The reach of any numbers is at least one.
pub proof fn lemma_reach_positive(numbers: Seq<usize>)
    ensures
        reach(numbers) >= 1,
    decreases numbers.len(),
{
    if numbers.len() > 0 {
        lemma_reach_positive(numbers.drop_last());
        let r = reach(numbers.drop_last());
        let v = factor(numbers.last());
        assert(r * v >= 1) by (nonlinear_arith)
            requires
                r >= 1,
                v >= 2,
        ;
    }
}

/// The reach of some of the numbers, taken from the front, is at most the
/// reach of all.
pub proof fn lemma_reach_grows(numbers: Seq<usize>, k: int)
    requires
        0 <= k <= numbers.len(),
    ensures
        1 <= reach(numbers.take(k)) <= reach(numbers),
    decreases numbers.len() - k,
{
    if k == numbers.len() {
        assert(numbers.take(k) =~= numbers);
        lemma_reach_positive(numbers);
    } else {
        lemma_reach_grows(numbers, k + 1);
        lemma_reach_positive(numbers.take(k));
        assert(numbers.take(k + 1).drop_last() =~= numbers.take(k));
        let r = reach(numbers.take(k));
        let v = factor(numbers[k]);
        assert(r <= r * v) by (nonlinear_arith)
            requires
                r >= 1,
                v >= 2,
        ;
    }
}

/// The reach of two rows of numbers, one after the other, is the product
/// of their reaches.
pub proof fn lemma_reach_concat(a: Seq<usize>, b: Seq<usize>)
    ensures
        reach(a + b) == reach(a) * reach(b),
    decreases b.len(),
{
    if b.len() == 0 {
        assert(a + b =~= a);
        assert(reach(a) * 1 == reach(a)) by (nonlinear_arith);
    } else {
        lemma_reach_concat(a, b.drop_last());
        assert((a + b).drop_last() =~= a + b.drop_last());
        let x = reach(a);
        let y = reach(b.drop_last());
        let v = factor(b.last());
        assert((x * y) * v == x * (y * v)) by (nonlinear_arith);
    }
}

/// Taking a number out divides the reach by its factor.
pub proof fn lemma_reach_remove(numbers: Seq<usize>, i: int)
    requires
        0 <= i < numbers.len(),
    ensures
        reach(numbers) == reach(numbers.remove(i)) * factor(numbers[i]),
    decreases numbers.len(),
{
    if i == numbers.len() - 1 {
        assert(numbers.remove(i) =~= numbers.drop_last());
    } else {
        let front = numbers.drop_last();
        lemma_reach_remove(front, i);
        assert(numbers.remove(i).drop_last() =~= front.remove(i));
        let s = reach(front.remove(i));
        let x = factor(numbers[i]);
        let y = factor(numbers.last());
        assert((s * x) * y == (s * y) * x) by (nonlinear_arith);
    }
}

/// The reach does not depend on the order of the numbers.
pub proof fn lemma_reach_reordered(a: Seq<usize>, b: Seq<usize>)
    requires
        a.to_multiset() == b.to_multiset(),
    ensures
        reach(a) == reach(b),
    decreases a.len(),
{
    a.to_multiset_ensures();
    b.to_multiset_ensures();
    if a.len() > 0 {
        let last = a.last();
        assert(a.contains(last)) by {
            assert(a[a.len() - 1] == last);
        }
        assert(b.to_multiset().count(last) > 0);
        assert(b.contains(last));
        let j = choose|j: int| 0 <= j < b.len() && b[j] == last;
        assert(a.remove(a.len() - 1) =~= a.drop_last());
        assert(a.drop_last().to_multiset() =~= a.to_multiset().remove(last));
        assert(b.remove(j).to_multiset() =~= b.to_multiset().remove(last));
        lemma_reach_reordered(a.drop_last(), b.remove(j));
        lemma_reach_remove(b, j);
    } else {
        assert(b.len() == 0);
    }
}

/// The reach of the numbers, if it fits.
pub(crate) fn reach_within(numbers: &[usize]) -> (r: Option<usize>)
    ensures
        r matches Some(v) ==> v == reach(numbers@),
        r is None ==> reach(numbers@) > usize::MAX,
{
    let mut acc: usize = 1;
    let mut i: usize = 0;
    assert(numbers@.take(0) =~= Seq::empty());
    while i < numbers.len()
        invariant
            i <= numbers.len(),
            acc == reach(numbers@.take(i as int)),
        decreases numbers.len() - i,
    {
        let value: usize = if numbers[i] < 2 {
            2
        } else {
            numbers[i]
        };
        proof {
            lemma_reach_grows(numbers@, i + 1);
            assert(numbers@.take(i + 1).drop_last() =~= numbers@.take(i as int));
        }
        match acc.checked_mul(value) {
            None => {
                return None;
            },
            Some(product) => {
                acc = product;
            },
        }
        i += 1;
    }
    assert(numbers@.take(i as int) =~= numbers@);
    Some(acc)
}

/// The bound on the steps of a search over `n` terms, if it fits.
pub(crate) fn steps_within(n: usize) -> (r: Option<usize>)
    ensures
        r matches Some(v) ==> v == steps(n as nat),
        r is None ==> steps(n as nat) > usize::MAX,
{
    let mut below: usize = 0;
    let mut m: usize = 0;
    assert(steps(0) == 0);
    while m < n
        invariant
            m <= n,
            below == steps(m as nat),
        decreases n - m,
    {
        let ghost doubled = 2 * (m + 1);
        let ghost pairs = doubled * m;
        proof {
            lemma_steps_monotonic((m + 1) as nat, n as nat);
            lemma_steps_closed_form((m + 1) as nat);
            assert(steps((m + 1) as nat) == pairs * (1 + below));
            if m >= 1 {
                assert(pairs >= doubled && pairs * (1 + below) >= pairs && pairs * (1 + below) >= 1
                    + below) by (nonlinear_arith)
                    requires
                        pairs == doubled * m,
                        doubled >= 1,
                        m >= 1,
                        below >= 0,
                ;
            } else {
                assert(steps(0) == 0);
            }
        }
        if below == usize::MAX {
            return None;
        }
        let next = match 2usize.checked_mul(m + 1) {
            None => None,
            Some(doubled) => match doubled.checked_mul(m) {
                None => None,
                Some(pairs) => pairs.checked_mul(1 + below),
            },
        };
        match next {
            None => {
                assert(m >= 1) by (nonlinear_arith)
                    requires
                        m >= 0,
                        2 * (m + 1) > usize::MAX || 2 * (m + 1) * m > usize::MAX || 2 * (m + 1) * m
                            * (1 + below) > usize::MAX,
                        usize::MAX >= 2,
                ;
                return None;
            },
            Some(value) => {
                below = value;
            },
        }
        m += 1;
    }
    Some(below)
}

} // verus!
