use countdown_numbers::term::{Operator, Term};

fn node(op: Operator, a: Term, b: Term, value: usize) -> Term {
    Term { expression: Some((op, Box::new(a), Box::new(b))), value }
}

#[test]
fn atomic_term_has_no_expression() {
    let t = Term::atomic(42);
    assert_eq!(t.value, 42);
    assert!(t.expression.is_none());
}

#[test]
fn atomic_term_renders_as_decimal() {
    assert_eq!(Term::atomic(0).render(), "0");
    assert_eq!(Term::atomic(7).render(), "7");
    assert_eq!(Term::atomic(10).render(), "10");
    assert_eq!(Term::atomic(952).render(), "952");
    assert_eq!(Term::atomic(1000000).render(), "1000000");
    assert_eq!(Term::atomic(usize::MAX).render(), format!("{}", usize::MAX));
}

#[test]
fn derived_term_renders_with_parentheses() {
    let sum = node(Operator::Addition, Term::atomic(4), Term::atomic(3), 7);
    assert_eq!(sum.render(), "(4 + 3)");
    let difference = node(Operator::Subtraction, Term::atomic(4), Term::atomic(3), 1);
    assert_eq!(difference.render(), "(4 - 3)");
    let product = node(Operator::Multiplication, Term::atomic(5), Term::atomic(5), 25);
    assert_eq!(product.render(), "(5 * 5)");
    let quotient = node(Operator::Division, Term::atomic(100), Term::atomic(25), 4);
    assert_eq!(quotient.render(), "(100 / 25)");
}

#[test]
fn nested_term_renders_recursively() {
    let inner = node(Operator::Addition, Term::atomic(100), Term::atomic(8), 108);
    let outer = node(Operator::Multiplication, inner, Term::atomic(9), 972);
    assert_eq!(outer.render(), "((100 + 8) * 9)");
    let right = node(Operator::Subtraction, Term::atomic(75), Term::atomic(50), 25);
    let both = node(Operator::Division, outer, right, 38);
    assert_eq!(both.render(), "(((100 + 8) * 9) / (75 - 50))");
}

#[test]
fn equal_terms_are_equal() {
    let a = node(Operator::Addition, Term::atomic(4), Term::atomic(3), 7);
    let b = node(Operator::Addition, Term::atomic(4), Term::atomic(3), 7);
    assert!(a == b);
    assert!(Term::atomic(5) == Term::atomic(5));
}

#[test]
fn terms_of_different_value_differ() {
    assert!(Term::atomic(5) != Term::atomic(6));
    let a = node(Operator::Addition, Term::atomic(4), Term::atomic(3), 7);
    let b = node(Operator::Addition, Term::atomic(4), Term::atomic(3), 8);
    assert!(a != b);
}

#[test]
fn terms_of_different_shape_differ() {
    let sum = node(Operator::Addition, Term::atomic(2), Term::atomic(2), 4);
    let product = node(Operator::Multiplication, Term::atomic(2), Term::atomic(2), 4);
    assert!(sum != product);
    assert!(sum != Term::atomic(4));
    assert!(Term::atomic(4) != product);
}

#[test]
fn equality_is_not_commutative_normalised() {
    let a = node(Operator::Addition, Term::atomic(4), Term::atomic(3), 7);
    let b = node(Operator::Addition, Term::atomic(3), Term::atomic(4), 7);
    assert!(a != b);
}

#[test]
fn equality_looks_into_operands() {
    let left = node(Operator::Addition, Term::atomic(3), Term::atomic(1), 4);
    let other = node(Operator::Multiplication, Term::atomic(4), Term::atomic(1), 4);
    let a = node(Operator::Addition, left, Term::atomic(2), 6);
    let b = node(Operator::Addition, other, Term::atomic(2), 6);
    assert!(a != b);
}

#[test]
fn clone_is_equal_to_its_source() {
    let inner = node(Operator::Addition, Term::atomic(100), Term::atomic(8), 108);
    let outer = node(Operator::Multiplication, inner, Term::atomic(9), 972);
    let copy = outer.clone();
    assert!(copy == outer);
    assert_eq!(copy.render(), "((100 + 8) * 9)");
}

#[test]
fn compute_addition() {
    assert_eq!(Operator::Addition.compute(4, 3), Some(7));
    assert_eq!(Operator::Addition.compute(5, 5), Some(10));
}

#[test]
fn compute_subtraction_must_stay_positive() {
    assert_eq!(Operator::Subtraction.compute(4, 3), Some(1));
    assert_eq!(Operator::Subtraction.compute(5, 5), None);
    assert_eq!(Operator::Subtraction.compute(3, 4), None);
}

#[test]
fn compute_multiplication() {
    assert_eq!(Operator::Multiplication.compute(4, 3), Some(12));
    assert_eq!(Operator::Multiplication.compute(7, 1), Some(7));
}

#[test]
fn compute_division_must_be_exact() {
    assert_eq!(Operator::Division.compute(12, 3), Some(4));
    assert_eq!(Operator::Division.compute(5, 5), Some(1));
    assert_eq!(Operator::Division.compute(4, 3), None);
    assert_eq!(Operator::Division.compute(3, 4), None);
}
