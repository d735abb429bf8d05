use countdown_numbers::puzzle::{deal, draw};
use countdown_numbers::solver::Solver;

#[test]
fn deal_takes_from_the_top_of_each_stack() {
    let large = vec![50, 100, 25, 75];
    let small = vec![3, 7, 7, 1, 10, 2, 9];
    assert_eq!(deal(&large, &small, 0), vec![3, 7, 7, 1, 10, 2]);
    assert_eq!(deal(&large, &small, 1), vec![50, 3, 7, 7, 1, 10]);
    assert_eq!(deal(&large, &small, 2), vec![50, 100, 3, 7, 7, 1]);
    assert_eq!(deal(&large, &small, 4), vec![50, 100, 25, 75, 3, 7]);
}

#[test]
fn deal_takes_what_is_there() {
    let large = vec![50, 100];
    let small = vec![3, 7];
    assert_eq!(deal(&large, &small, 4), vec![50, 100, 3, 7]);
    assert_eq!(deal(&large, &small, 6), vec![50, 100]);
    assert_eq!(deal(&large, &small, 0), vec![3, 7]);
}

#[test]
fn draw_gives_six_numbers_and_a_three_digit_target() {
    for num_big in 0..5 {
        for _ in 0..50 {
            let (numbers, target) = draw(num_big);
            assert_eq!(numbers.len(), 6);
            assert!(target >= 101 && target <= 999);
            for n in &numbers[..num_big] {
                assert!([25, 50, 75, 100].contains(n));
            }
            for n in &numbers[num_big..] {
                assert!(*n >= 1 && *n <= 10);
            }
        }
    }
}

#[test]
fn draw_takes_no_number_more_often_than_the_stacks_hold_it() {
    for _ in 0..200 {
        let (numbers, _) = draw(4);
        for n in [25, 50, 75, 100] {
            assert_eq!(numbers.iter().filter(|k| **k == n).count(), 1);
        }
        for n in 1..11 {
            assert!(numbers.iter().filter(|k| **k == n).count() <= 2);
        }
    }
}

#[test]
fn draw_shuffles_the_stacks() {
    let mut large_orders = Vec::new();
    let mut small_orders = Vec::new();
    for _ in 0..200 {
        let (numbers, _) = draw(4);
        if !large_orders.contains(&numbers[..4].to_vec()) {
            large_orders.push(numbers[..4].to_vec());
        }
        let (numbers, _) = draw(0);
        if !small_orders.contains(&numbers) {
            small_orders.push(numbers);
        }
    }
    assert!(large_orders.len() > 1);
    assert!(small_orders.len() > 1);
}

#[test]
fn draw_varies_the_target() {
    let mut targets = Vec::new();
    for _ in 0..200 {
        let (_, target) = draw(2);
        if !targets.contains(&target) {
            targets.push(target);
        }
    }
    assert!(targets.len() > 1);
}

#[test]
fn a_drawn_puzzle_can_be_solved() {
    let (numbers, target) = draw(1);
    assert!(Solver::accepts(&numbers));
    let mut solver = Solver::new(&numbers, target);
    solver.run();
    for s in solver.solutions() {
        assert_eq!(s.value, target);
    }
}
