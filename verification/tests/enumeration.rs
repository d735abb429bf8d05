use countdown_numbers::solver::Solver;
use countdown_numbers::term::{Operator, Term};

const OPERATORS: [Operator; 4] =
    [Operator::Addition, Operator::Subtraction, Operator::Multiplication, Operator::Division];

fn same_but_for_ties(s: &Term, t: &Term) -> bool {
    if s.value != t.value {
        return false;
    }
    match (&s.expression, &t.expression) {
        (None, None) => true,
        (Some((op1, a1, b1)), Some((op2, a2, b2))) => {
            op1 == op2
                && ((same_but_for_ties(a1, a2) && same_but_for_ties(b1, b2))
                    || (a1.value == b1.value
                        && same_but_for_ties(a1, b2)
                        && same_but_for_ties(b1, a2)))
        }
        _ => false,
    }
}

/// Every expression that the rules allow over exactly the numbers that
/// `mask` selects, built from all splits of the selection.
fn expressions_over(numbers: &[usize], mask: usize, known: &mut Vec<Option<Vec<Term>>>) -> Vec<Term> {
    if let Some(terms) = &known[mask] {
        return terms.clone();
    }
    let mut terms = Vec::new();
    if mask.count_ones() == 1 {
        terms.push(Term::atomic(numbers[mask.trailing_zeros() as usize]));
    } else {
        for left in 1..mask {
            if left & mask != left {
                continue;
            }
            let right = mask ^ left;
            let lefts = expressions_over(numbers, left, known);
            let rights = expressions_over(numbers, right, known);
            for a in &lefts {
                for b in &rights {
                    if a.value < b.value {
                        continue;
                    }
                    for op in OPERATORS {
                        if let Some(value) = op.compute(a.value, b.value) {
                            terms.push(Term {
                                expression: Some((op, Box::new(a.clone()), Box::new(b.clone()))),
                                value,
                            });
                        }
                    }
                }
            }
        }
    }
    known[mask] = Some(terms.clone());
    terms
}

fn expressions(numbers: &[usize]) -> Vec<Term> {
    let mut known = vec![None; 1 << numbers.len()];
    let mut all = Vec::new();
    for mask in 1..(1usize << numbers.len()) {
        if mask.count_ones() >= 2 {
            all.extend(expressions_over(numbers, mask, &mut known));
        }
    }
    all
}

fn check_against_all_expressions(numbers: &[usize], targets: &[usize]) {
    let all = expressions(numbers);
    for target in targets {
        let mut solver = Solver::new(numbers, *target);
        solver.run();
        let wanted: Vec<&Term> = all.iter().filter(|t| t.value == *target).collect();
        for goal in &wanted {
            assert!(
                solver.solutions().iter().any(|s| same_but_for_ties(s, goal)),
                "{} = {} was not found",
                goal.render(),
                target
            );
        }
        for s in solver.solutions() {
            assert!(
                wanted.iter().any(|goal| *s == **goal),
                "{} is no expression over the numbers",
                s.render()
            );
        }
        assert_eq!(wanted.is_empty(), solver.solutions().is_empty());
    }
}

#[test]
fn every_expression_over_distinct_numbers_is_found() {
    check_against_all_expressions(&[1, 2, 3, 4], &[1, 2, 5, 7, 10, 13, 24, 36, 100]);
}

#[test]
fn every_expression_over_repeated_numbers_is_found() {
    check_against_all_expressions(&[2, 2, 3, 3], &[1, 4, 6, 10, 12, 36]);
    check_against_all_expressions(&[2, 2, 2, 2], &[1, 2, 4, 8, 16]);
}

#[test]
fn every_expression_over_large_and_small_numbers_is_found() {
    check_against_all_expressions(&[25, 100, 4, 3], &[7, 75, 96, 125, 300, 421]);
}

#[test]
fn terms_of_equal_value_are_combined_in_one_order_only() {
    let mut solver = Solver::new(&[4, 2, 2], 8);
    solver.run();
    let found: Vec<String> = solver.solutions().iter().map(|t| t.render()).collect();
    let one = found.contains(&"(4 + (2 + 2))".to_string());
    let other = found.contains(&"((2 + 2) + 4)".to_string());
    assert!(one != other);
    let one = found.contains(&"(4 + (2 * 2))".to_string());
    let other = found.contains(&"((2 * 2) + 4)".to_string());
    assert!(one != other);
}
