//! Drawing a puzzle at random, as the game does: some of the four large
//! numbers, small numbers to make six, and a three-digit target.
use crate::bounds::{
    acceptable, factor, lemma_reach_concat, lemma_reach_reordered, lemma_steps_of_six, reach,
};
use rand::Rng;
use vstd::prelude::*;

verus! {

/// `rand::ThreadRng`, the generator that belongs to the running thread.
/// Nothing inside it is visible here.
#[verifier::external_type_specification]
#[verifier::external_body]
pub struct ExThreadRng(rand::ThreadRng);

/// `rand::thread_rng` hands out the thread's generator. Nothing is claimed
/// of the generator; the call fails only where the system has no entropy to
/// seed it with.
pub assume_specification[ rand::thread_rng ]() -> (rng: rand::ThreadRng);

/// `rand::Rng::shuffle` reorders a slice in place by a series of swaps. The
/// claim is that the values afterwards are those from before, each as often
/// as before; which order comes out is left open.
#[verifier::external_body]
fn shuffle(rng: &mut rand::ThreadRng, values: &mut Vec<usize>)
    ensures
        final(values)@.to_multiset() == old(values)@.to_multiset(),
{
    rng.shuffle(&mut values[..]);
}

/// `rand::Rng::gen_range` samples an integer from `low` up to, but not
/// including, `high`, and panics unless `low < high`. The claim is the
/// range; which value comes out is left open.
#[verifier::external_body]
fn between(rng: &mut rand::ThreadRng, low: usize, high: usize) -> (value: usize)
    requires
        low < high,
    ensures
        low <= value < high,
{
    rng.gen_range(low, high)
}

/// The four large numbers of the game.
pub open spec fn large_numbers() -> Seq<usize> {
    seq![100, 75, 50, 25]
}

/// The twenty small numbers of the game: two each of one to ten.
pub open spec fn small_numbers() -> Seq<usize> {
    Seq::new(20, |i: int| (i / 2 + 1) as usize)
}

/// The first `count` items of a sequence, or all of it if it has fewer.
pub open spec fn first(items: Seq<usize>, count: int) -> Seq<usize> {
    if count <= 0 {
        Seq::empty()
    } else if count >= items.len() {
        items
    } else {
        items.take(count)
    }
}

/// Six numbers from two stacks: `num_big` from the top of the large stack,
/// the others from the top of the small one.
pub open spec fn dealt(large: Seq<usize>, small: Seq<usize>, num_big: int) -> Seq<usize> {
    first(large, num_big) + first(small, 6 - num_big)
}

/// The numbers can be dealt, with `num_big` large ones, from the game's two
/// stacks in some order of each.
pub open spec fn is_draw(numbers: Seq<usize>, num_big: int) -> bool {
    exists|large: Seq<usize>, small: Seq<usize>|
        {
            &&& large.to_multiset() == large_numbers().to_multiset()
            &&& small.to_multiset() == small_numbers().to_multiset()
            &&& numbers == #[trigger] dealt(large, small, num_big)
        }
}

/// Appends the first `count` items, or all if there are fewer.
fn take_first(numbers: &mut Vec<usize>, items: &Vec<usize>, count: usize)
    ensures
        final(numbers)@ == old(numbers)@ + first(items@, count as int),
{
    let mut i: usize = 0;
    while i < count && i < items.len()
        invariant
            i <= count,
            i <= items.len(),
            numbers@ == old(numbers)@ + items@.take(i as int),
        decreases items.len() - i,
    {
        numbers.push(items[i]);
        assert(items@.take(i + 1) =~= items@.take(i as int).push(items@[i as int]));
        i += 1;
    }
    assert(items@.take(items.len() as int) =~= items@);
    assert(items@.take(0) =~= Seq::empty());
}

/// Deals six numbers from two stacks: `num_big` from the top of the large
/// stack, the others from the top of the small one.
pub fn deal(large: &Vec<usize>, small: &Vec<usize>, num_big: usize) -> (numbers: Vec<usize>)
    requires
        num_big <= 6,
    ensures
        numbers@ == dealt(large@, small@, num_big as int),
{
    let mut numbers: Vec<usize> = Vec::new();
    take_first(&mut numbers, large, num_big);
    take_first(&mut numbers, small, 6 - num_big);
    numbers
}

/// The large stack, in the order in which it is written down.
fn large_stack() -> (stack: Vec<usize>)
    ensures
        stack@ == large_numbers(),
{
    let mut stack: Vec<usize> = Vec::new();
    stack.push(100);
    stack.push(75);
    stack.push(50);
    stack.push(25);
    assert(stack@ =~= large_numbers());
    stack
}

/// The small stack, in ascending order.
fn small_stack() -> (stack: Vec<usize>)
    ensures
        stack@ == small_numbers(),
{
    let mut stack: Vec<usize> = Vec::new();
    let mut i: usize = 1;
    while i < 11
        invariant
            1 <= i <= 11,
            stack@ == Seq::new((2 * (i - 1)) as nat, |k: int| (k / 2 + 1) as usize),
        decreases 11 - i,
    {
        stack.push(i);
        stack.push(i);
        assert(stack@ =~= Seq::new((2 * i) as nat, |k: int| (k / 2 + 1) as usize));
        i += 1;
    }
    stack
}

/// A reordered stack is as high as the stack, and each of its items is an
/// item of the stack.
proof fn lemma_reordered_within(stack: Seq<usize>, reordered: Seq<usize>)
    requires
        reordered.to_multiset() == stack.to_multiset(),
    ensures
        reordered.len() == stack.len(),
        forall|i: int| 0 <= i < reordered.len() ==> stack.contains(#[trigger] reordered[i]),
{
    stack.to_multiset_ensures();
    reordered.to_multiset_ensures();
    assert forall|i: int| 0 <= i < reordered.len() implies stack.contains(
        #[trigger] reordered[i],
    ) by {
        assert(reordered.contains(reordered[i]));
        assert(reordered.to_multiset().count(reordered[i]) > 0);
        assert(stack.to_multiset().count(reordered[i]) > 0);
    }
}

/// The product of `count` factors of `cap`.
spec fn ceiling(count: nat, cap: nat) -> nat
    decreases count,
{
    if count == 0 {
        1
    } else {
        ceiling((count - 1) as nat, cap) * cap
    }
}

/// Numbers of at most `cap` reach no further than as many factors of `cap`.
proof fn lemma_reach_capped(numbers: Seq<usize>, cap: nat)
    requires
        cap >= 2,
        forall|i: int| 0 <= i < numbers.len() ==> numbers[i] <= cap,
    ensures
        1 <= reach(numbers) <= ceiling(numbers.len(), cap),
    decreases numbers.len(),
{
    if numbers.len() > 0 {
        lemma_reach_capped(numbers.drop_last(), cap);
        let r = reach(numbers.drop_last());
        let c = ceiling((numbers.len() - 1) as nat, cap) as int;
        let v = factor(numbers.last());
        assert(1 <= r * v <= c * cap) by (nonlinear_arith)
            requires
                1 <= r <= c,
                2 <= v <= cap,
        ;
    }
}

/// The ceilings that a draw can meet: up to six small numbers, up to three
/// large ones.
proof fn lemma_ceilings()
    ensures
        ceiling(0, 10) == 1,
        ceiling(1, 10) == 10,
        ceiling(2, 10) == 100,
        ceiling(3, 10) == 1000,
        ceiling(4, 10) == 10000,
        ceiling(5, 10) == 100000,
        ceiling(6, 10) == 1000000,
        ceiling(0, 100) == 1,
        ceiling(1, 100) == 100,
        ceiling(2, 100) == 10000,
        ceiling(3, 100) == 1000000,
{
    lemma_ceiling_next(1, 10, 1, 10);
    lemma_ceiling_next(2, 10, 10, 100);
    lemma_ceiling_next(3, 10, 100, 1000);
    lemma_ceiling_next(4, 10, 1000, 10000);
    lemma_ceiling_next(5, 10, 10000, 100000);
    lemma_ceiling_next(6, 10, 100000, 1000000);
    lemma_ceiling_next(1, 100, 1, 100);
    lemma_ceiling_next(2, 100, 100, 10000);
    lemma_ceiling_next(3, 100, 10000, 1000000);
}

/// One more factor of a ceiling, with the ceiling for one factor less at
/// hand.
proof fn lemma_ceiling_next(count: nat, cap: nat, below: nat, value: nat)
    requires
        count >= 1,
        ceiling((count - 1) as nat, cap) == below,
        below * cap == value,
    ensures
        ceiling(count, cap) == value,
{
}

/// Six numbers that can be dealt from the game's stacks are numbers that a
/// solver can be made for, on every machine.
proof fn lemma_draw_acceptable(large: Seq<usize>, small: Seq<usize>, num_big: int)
    requires
        large.to_multiset() == large_numbers().to_multiset(),
        small.to_multiset() == small_numbers().to_multiset(),
        0 <= num_big <= 4,
    ensures
        acceptable(dealt(large, small, num_big)),
{
    let numbers = dealt(large, small, num_big);
    let high = first(large, num_big);
    let low = first(small, 6 - num_big);
    lemma_reordered_within(small_numbers(), small);
    lemma_reordered_within(large_numbers(), large);
    assert forall|i: int| 0 <= i < high.len() implies 1 <= #[trigger] high[i] <= 100 by {
        assert(large_numbers().contains(large[i]));
    }
    assert forall|i: int| 0 <= i < low.len() implies 1 <= #[trigger] low[i] <= 10 by {
        assert(small_numbers().contains(small[i]));
    }
    assert(numbers.len() == 6);
    lemma_steps_of_six();
    lemma_reach_concat(high, low);
    lemma_reach_capped(high, 100);
    lemma_reach_capped(low, 10);
    lemma_ceilings();
    let h = reach(high);
    let l = reach(low);
    if num_big == 4 {
        assert(high == large);
        lemma_reach_reordered(large, large_numbers());
        lemma_large_reach();
        assert(h * l <= 937500000) by (nonlinear_arith)
            requires
                h == 9375000,
                1 <= l <= 100,
        ;
    } else if num_big == 3 {
        assert(h * l <= 1000000000) by (nonlinear_arith)
            requires
                1 <= h <= 1000000,
                1 <= l <= 1000,
        ;
    } else if num_big == 2 {
        assert(h * l <= 100000000) by (nonlinear_arith)
            requires
                1 <= h <= 10000,
                1 <= l <= 10000,
        ;
    } else if num_big == 1 {
        assert(h * l <= 10000000) by (nonlinear_arith)
            requires
                1 <= h <= 100,
                1 <= l <= 100000,
        ;
    } else {
        assert(h * l <= 1000000) by (nonlinear_arith)
            requires
                h == 1,
                1 <= l <= 1000000,
        ;
    }
    assert forall|i: int| 0 <= i < numbers.len() implies numbers[i] >= 1 by {
        if i < high.len() {
            assert(numbers[i] == high[i]);
        } else {
            assert(numbers[i] == low[i - high.len()]);
        }
    }
}

/// The four large numbers reach 9375000.
proof fn lemma_large_reach()
    ensures
        reach(large_numbers()) == 9375000,
{
    let four = large_numbers();
    let three = four.drop_last();
    let two = three.drop_last();
    let one = two.drop_last();
    assert(reach(one.drop_last()) == 1);
    assert(reach(one) == 1 * 100);
    assert(reach(two) == 100 * 75);
    assert(reach(three) == 7500 * 50);
    assert(reach(four) == 375000 * 25);
}

/// Draws a puzzle at random: six numbers, `num_big` of them large, and a
/// target from 101 to 999.
pub fn draw(num_big: usize) -> (puzzle: (Vec<usize>, usize))
    requires
        num_big <= 4,
    ensures
        is_draw(puzzle.0@, num_big as int),
        puzzle.0@.len() == 6,
        101 <= puzzle.1 <= 999,
        acceptable(puzzle.0@),
{
    let mut small = small_stack();
    let mut large = large_stack();
    let mut rng = rand::thread_rng();
    shuffle(&mut rng, &mut small);
    shuffle(&mut rng, &mut large);
    let target = between(&mut rng, 101, 1000);
    let numbers = deal(&large, &small, num_big);
    proof {
        lemma_reordered_within(small_numbers(), small@);
        lemma_reordered_within(large_numbers(), large@);
        lemma_draw_acceptable(large@, small@, num_big as int);
    }
    (numbers, target)
}

} // verus!
