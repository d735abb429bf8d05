use countdown_numbers::solver::Solver;
use countdown_numbers::term::{Operator, Term};

fn solved(numbers: &[usize], target: usize) -> Solver {
    assert!(Solver::accepts(numbers));
    let mut solver = Solver::new(numbers, target);
    solver.run();
    solver
}

fn rendered(solver: &Solver) -> Vec<String> {
    solver.solutions().iter().map(|t| t.render()).collect()
}

fn evaluate(t: &Term) -> Option<usize> {
    match &t.expression {
        None => Some(t.value),
        Some((op, a, b)) => {
            let x = evaluate(a)?;
            let y = evaluate(b)?;
            if x == 0 || y == 0 {
                return None;
            }
            let v = match op {
                Operator::Addition => x + y,
                Operator::Subtraction => {
                    if x <= y {
                        return None;
                    }
                    x - y
                }
                Operator::Multiplication => x * y,
                Operator::Division => {
                    if x % y != 0 {
                        return None;
                    }
                    x / y
                }
            };
            if v == t.value {
                Some(v)
            } else {
                None
            }
        }
    }
}

fn leaves(t: &Term, into: &mut Vec<usize>) {
    match &t.expression {
        None => into.push(t.value),
        Some((_, a, b)) => {
            leaves(a, into);
            leaves(b, into);
        }
    }
}

fn enumerate(pool: &mut Vec<(usize, String)>, target: usize, found: &mut Vec<String>, count: &mut usize) {
    for i in 0..pool.len() {
        let a = pool.remove(i);
        for j in i..pool.len() {
            let b = pool.remove(j);
            let candidates = [
                Some((a.0 + b.0, '+')),
                if a.0 > b.0 { Some((a.0 - b.0, '-')) } else { None },
                Some((a.0 * b.0, '*')),
                if a.0 % b.0 == 0 { Some((a.0 / b.0, '/')) } else { None },
            ];
            for candidate in candidates.iter() {
                if let Some((value, symbol)) = candidate {
                    let text = format!("({} {} {})", a.1, symbol, b.1);
                    *count += 1;
                    if *value == target && !found.contains(&text) {
                        found.push(text.clone());
                    }
                    if !pool.is_empty() {
                        let at = pool.iter().position(|k| k.0 <= *value).unwrap_or(pool.len());
                        pool.insert(at, (*value, text));
                        enumerate(pool, target, found, count);
                        pool.remove(at);
                    }
                }
            }
            pool.insert(j, b);
        }
        pool.insert(i, a);
    }
}

fn expected(numbers: &[usize], target: usize) -> (Vec<String>, usize) {
    let mut sorted = numbers.to_vec();
    sorted.sort_by(|a, b| b.cmp(a));
    let mut pool: Vec<(usize, String)> = sorted.iter().map(|n| (*n, n.to_string())).collect();
    let mut found = Vec::new();
    let mut count = 0;
    enumerate(&mut pool, target, &mut found, &mut count);
    (found, count)
}

#[test]
fn new_sorts_the_pool_descending() {
    let solver = Solver::new(&[3, 100, 7, 25, 7, 1], 500);
    let values: Vec<usize> = solver.remaining().iter().map(|t| t.value).collect();
    assert_eq!(values, vec![100, 25, 7, 7, 3, 1]);
    assert!(solver.remaining().iter().all(|t| t.expression.is_none()));
    assert_eq!(solver.target(), 500);
    assert_eq!(solver.counter(), 0);
    assert!(solver.solutions().is_empty());
}

#[test]
fn new_keeps_a_sorted_pool_as_it_is() {
    let solver = Solver::new(&[9, 8, 8, 2], 10);
    let values: Vec<usize> = solver.remaining().iter().map(|t| t.value).collect();
    assert_eq!(values, vec![9, 8, 8, 2]);
}

#[test]
fn three_and_four_make_seven_once() {
    let solver = solved(&[3, 4], 7);
    assert_eq!(rendered(&solver), vec!["(4 + 3)"]);
    assert_eq!(solver.solutions()[0].value, 7);
    assert_eq!(solver.counter(), 3);
}

#[test]
fn two_and_two_make_four_twice() {
    let solver = solved(&[2, 2], 4);
    assert_eq!(rendered(&solver), vec!["(2 + 2)", "(2 * 2)"]);
    assert!(solver.solutions()[0] != solver.solutions()[1]);
    assert_eq!(solver.solutions()[0].value, solver.solutions()[1].value);
    assert_eq!(solver.counter(), 3);
}

#[test]
fn three_and_four_make_one_by_subtraction() {
    let solver = solved(&[3, 4], 1);
    assert_eq!(rendered(&solver), vec!["(4 - 3)"]);
    assert_eq!(solver.solutions()[0].value, 1);
}

#[test]
fn three_and_four_make_twelve_by_multiplication() {
    let solver = solved(&[3, 4], 12);
    assert_eq!(rendered(&solver), vec!["(4 * 3)"]);
    assert_eq!(solver.solutions()[0].value, 12);
}

#[test]
fn five_and_five_make_twenty_five() {
    let solver = solved(&[5, 5], 25);
    assert_eq!(rendered(&solver), vec!["(5 * 5)"]);
    assert_eq!(solver.solutions()[0].value, 25);
}

#[test]
fn equal_numbers_never_make_zero() {
    let solver = solved(&[5, 5], 0);
    assert!(solver.solutions().is_empty());
    assert_eq!(solver.counter(), 3);
}

#[test]
fn five_and_five_make_one_by_division() {
    let solver = solved(&[5, 5], 1);
    assert_eq!(rendered(&solver), vec!["(5 / 5)"]);
}

#[test]
fn inexact_division_is_not_counted() {
    let solver = solved(&[7, 2], 1000);
    assert!(solver.solutions().is_empty());
    assert_eq!(solver.counter(), 3);
}

#[test]
fn exact_division_is_counted() {
    let solver = solved(&[8, 2], 4);
    assert_eq!(rendered(&solver), vec!["(8 / 2)"]);
    assert_eq!(solver.counter(), 4);
}

#[test]
fn starting_number_alone_is_no_solution() {
    let solver = solved(&[7, 50], 7);
    assert!(solver.solutions().is_empty());
}

#[test]
fn fewer_than_two_numbers_give_nothing() {
    let solver = solved(&[7], 7);
    assert!(solver.solutions().is_empty());
    assert_eq!(solver.counter(), 0);
    let solver = solved(&[], 7);
    assert!(solver.solutions().is_empty());
    assert_eq!(solver.counter(), 0);
}

#[test]
fn three_numbers_are_combined_in_two_levels() {
    let solver = solved(&[1, 2, 3], 6);
    let (found, count) = expected(&[1, 2, 3], 6);
    assert_eq!(rendered(&solver), found);
    assert_eq!(solver.counter(), count);
    assert_eq!(solver.solutions()[0].render(), "((3 + 2) + 1)");
    assert!(rendered(&solver).contains(&"((3 * 2) * 1)".to_string()));
    assert!(rendered(&solver).contains(&"(3 * (2 * 1))".to_string()));
}

#[test]
fn a_subset_of_the_numbers_is_enough() {
    let solver = solved(&[100, 3, 4], 7);
    assert!(rendered(&solver).contains(&"(4 + 3)".to_string()));
}

#[test]
fn solutions_agree_with_plain_enumeration() {
    for (numbers, target) in [
        (vec![1, 2, 3, 4], 10),
        (vec![2, 2, 2, 2], 8),
        (vec![10, 5, 2, 1], 7),
        (vec![25, 50, 8, 9, 3], 142),
        (vec![6, 6, 6], 6),
    ] {
        let solver = solved(&numbers, target);
        let (found, count) = expected(&numbers, target);
        assert_eq!(rendered(&solver), found);
        assert_eq!(solver.counter(), count);
    }
}

#[test]
fn every_solution_evaluates_to_the_target() {
    let solver = solved(&[25, 50, 8, 9, 3], 142);
    assert!(!solver.solutions().is_empty());
    for s in solver.solutions() {
        assert_eq!(s.value, 142);
        assert_eq!(evaluate(s), Some(142));
    }
}

#[test]
fn every_solution_uses_each_number_at_most_once() {
    let numbers = [25, 50, 8, 9, 3];
    let solver = solved(&numbers, 142);
    for s in solver.solutions() {
        let mut used = Vec::new();
        leaves(s, &mut used);
        let mut left = numbers.to_vec();
        for n in used {
            let at = left.iter().position(|k| *k == n);
            assert!(at.is_some());
            left.remove(at.unwrap());
        }
    }
}

#[test]
fn no_solution_occurs_twice() {
    let solver = solved(&[2, 2, 2, 2, 2], 8);
    let found = solver.solutions();
    assert!(found.len() > 1);
    for i in 0..found.len() {
        for j in 0..found.len() {
            if i != j {
                assert!(found[i] != found[j]);
            }
        }
    }
}

#[test]
fn the_pool_is_restored() {
    let mut solver = Solver::new(&[3, 100, 7, 25, 7], 500);
    let before: Vec<Term> = solver.remaining().to_vec();
    solver.run();
    assert!(solver.counter() > 0);
    assert_eq!(solver.remaining().len(), before.len());
    for (a, b) in solver.remaining().iter().zip(before.iter()) {
        assert!(a == b);
    }
    let values: Vec<usize> = solver.remaining().iter().map(|t| t.value).collect();
    assert_eq!(values, vec![100, 25, 7, 7, 3]);
}

#[test]
fn the_larger_operand_always_stands_left() {
    fn check(t: &Term) {
        if let Some((_, a, b)) = &t.expression {
            assert!(a.value >= b.value);
            check(a);
            check(b);
        }
    }
    let solver = solved(&[1, 2, 3, 4, 5], 15);
    assert!(!solver.solutions().is_empty());
    for s in solver.solutions() {
        check(s);
    }
}

#[test]
fn two_solvers_with_the_same_input_agree() {
    let first = solved(&[25, 50, 8, 9, 3], 142);
    let second = solved(&[25, 50, 8, 9, 3], 142);
    assert_eq!(first.counter(), second.counter());
    assert_eq!(rendered(&first), rendered(&second));
    assert_eq!(first.solutions().len(), second.solutions().len());
    for (a, b) in first.solutions().iter().zip(second.solutions().iter()) {
        assert!(a == b);
    }
}

#[test]
fn a_second_run_finds_nothing_new() {
    let mut solver = solved(&[1, 2, 3, 4], 10);
    let found = rendered(&solver);
    let counted = solver.counter();
    solver.run();
    assert_eq!(rendered(&solver), found);
    assert_eq!(solver.counter(), 2 * counted);
}

#[test]
fn six_numbers_are_searched_to_the_end() {
    let solver = solved(&[25, 50, 75, 100, 8, 9], 952);
    assert!(solver.counter() > 0);
    for s in solver.solutions() {
        assert_eq!(s.value, 952);
        assert_eq!(evaluate(s), Some(952));
    }
    let again = solved(&[25, 50, 75, 100, 8, 9], 952);
    assert_eq!(again.counter(), solver.counter());
    assert_eq!(again.solutions().len(), solver.solutions().len());
}

#[test]
fn try_expr_counts_and_records_a_valid_application() {
    let mut solver = Solver::new(&[], 7);
    let expr = (Operator::Addition, Box::new(Term::atomic(4)), Box::new(Term::atomic(3)));
    let back = solver.try_expr(expr);
    assert!(matches!(back.0, Operator::Addition));
    assert_eq!(back.1.value, 4);
    assert_eq!(back.2.value, 3);
    assert_eq!(solver.counter(), 1);
    assert_eq!(rendered(&solver), vec!["(4 + 3)"]);
}

#[test]
fn try_expr_skips_an_application_that_the_rules_forbid() {
    let mut solver = Solver::new(&[], 0);
    let expr = (Operator::Subtraction, Box::new(Term::atomic(5)), Box::new(Term::atomic(5)));
    let back = solver.try_expr(expr);
    assert_eq!(back.1.value, 5);
    assert_eq!(back.2.value, 5);
    assert_eq!(solver.counter(), 0);
    assert!(solver.solutions().is_empty());
    let expr = (Operator::Division, Box::new(Term::atomic(5)), Box::new(Term::atomic(3)));
    solver.try_expr(expr);
    assert_eq!(solver.counter(), 0);
}

#[test]
fn try_expr_searches_the_pool_with_the_new_term() {
    let mut solver = Solver::new(&[2], 14);
    let expr = (Operator::Addition, Box::new(Term::atomic(4)), Box::new(Term::atomic(3)));
    solver.try_expr(expr);
    assert_eq!(rendered(&solver), vec!["((4 + 3) * 2)"]);
    assert_eq!(solver.counter(), 4);
    assert_eq!(solver.remaining().len(), 1);
    assert_eq!(solver.remaining()[0].value, 2);
}

#[test]
fn try_expr_does_not_record_a_solution_twice() {
    let mut solver = Solver::new(&[], 7);
    let expr = (Operator::Addition, Box::new(Term::atomic(4)), Box::new(Term::atomic(3)));
    let expr = solver.try_expr(expr);
    solver.try_expr(expr);
    assert_eq!(solver.counter(), 2);
    assert_eq!(solver.solutions().len(), 1);
}

#[test]
fn accepts_ordinary_numbers() {
    assert!(Solver::accepts(&[25, 50, 75, 100, 8, 9]));
    assert!(Solver::accepts(&[3, 4]));
    assert!(Solver::accepts(&[1, 1, 1, 1, 1, 1]));
    assert!(Solver::accepts(&[]));
}

#[test]
fn accepts_no_zero() {
    assert!(!Solver::accepts(&[3, 0, 4]));
    assert!(!Solver::accepts(&[0]));
}

#[test]
fn accepts_no_numbers_whose_products_overflow() {
    assert!(!Solver::accepts(&[usize::MAX, 2]));
    assert!(!Solver::accepts(&[usize::MAX / 2 + 1, 2]));
    assert!(!Solver::accepts(&[usize::MAX / 2, 3]));
    assert!(!Solver::accepts(&[1 << (usize::BITS / 2), 1 << (usize::BITS / 2)]));
    assert!(Solver::accepts(&[usize::MAX / 2, 2]));
    assert!(Solver::accepts(&[usize::MAX / 4 - 1, 2]));
}

#[test]
fn accepts_no_search_too_long_to_count() {
    let many = vec![1usize; 40];
    assert!(!Solver::accepts(&many));
}

#[test]
fn accepts_numbers_up_to_the_limit() {
    assert!(Solver::accepts(&[usize::MAX]));
    assert!(Solver::accepts(&[usize::MAX / 3, 3]));
    assert!(!Solver::accepts(&[usize::MAX / 3 + 1, 3]));
}

#[test]
fn accepts_a_one_as_if_it_were_a_two() {
    assert!(Solver::accepts(&[usize::MAX / 2, 1]));
    assert!(!Solver::accepts(&[usize::MAX / 2 + 1, 1]));
    assert!(Solver::accepts(&[1, 1]));
}

#[test]
fn the_largest_numbers_that_are_accepted_do_not_overflow() {
    let third = usize::MAX / 3;
    let solver = solved(&[third, 3], usize::MAX);
    assert_eq!(rendered(&solver), vec![format!("({} * 3)", third)]);
    assert_eq!(solver.solutions()[0].value, usize::MAX);
    let half = usize::MAX / 2;
    let solver = solved(&[half, 1], half + 1);
    assert_eq!(rendered(&solver), vec![format!("({} + 1)", half)]);
    assert_eq!(solver.counter(), 4);
}

#[test]
fn accepts_as_many_numbers_as_can_be_counted() {
    let seven = vec![1usize; 7];
    assert!(Solver::accepts(&seven));
    if usize::BITS == 64 {
        let eleven = vec![1usize; 11];
        let twelve = vec![1usize; 12];
        assert!(Solver::accepts(&eleven));
        assert!(!Solver::accepts(&twelve));
    }
    if usize::BITS == 32 {
        let eight = vec![1usize; 8];
        assert!(!Solver::accepts(&eight));
    }
}

#[test]
fn the_counter_stays_within_its_bound() {
    let bounds = [0usize, 0, 4, 60, 1464, 58600, 3516060];
    for n in 2..7 {
        let numbers: Vec<usize> = (1..=n).collect();
        let mut solver = Solver::new(&numbers, 1000);
        solver.run();
        assert!(solver.counter() <= bounds[n]);
        assert!(solver.counter() > bounds[n - 1]);
    }
}

#[test]
fn solve_is_the_pass_that_run_starts() {
    let mut by_run = Solver::new(&[1, 2, 3, 4], 10);
    by_run.run();
    let mut by_solve = Solver::new(&[1, 2, 3, 4], 10);
    by_solve.solve();
    assert_eq!(rendered(&by_run), rendered(&by_solve));
    assert_eq!(by_run.counter(), by_solve.counter());
}
