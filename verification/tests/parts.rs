use countdown::engine::combinations;
use countdown::engine::generate_base;
use countdown::engine::permutations;
use countdown::expression::add;
use countdown::expression::divide;
use countdown::expression::multiply;
use countdown::expression::shares_dependencies;
use countdown::expression::subtract;
use countdown::fingerprint::generate_hash;
use countdown::fingerprint::generate_hashes;
use countdown::render::decimal;
use countdown::Expression;
use countdown::SolveError;
use countdown::State;
use std::collections::HashSet;
use std::rc::Rc;

fn pair(a: u128, b: u128) -> (Expression, Expression) {
    let mut base = generate_base(&[a, b]).unwrap();
    let second = base.pop().unwrap();
    let first = base.pop().unwrap();
    (first, second)
}

#[test]
fn leaves_carry_value_and_position() {
    let base = generate_base(&[25, 50, 75]).unwrap();
    assert_eq!(base.len(), 3);
    for (i, e) in base.iter().enumerate() {
        assert_eq!(e.contains, 1 << i);
        assert_eq!(e.value, [25, 50, 75][i]);
        assert!(matches!(*e.state, State::Base { value } if value == e.value));
    }
    assert_eq!(generate_base(&[]).unwrap().len(), 0);
    assert_eq!(generate_base(&[9; 64]).unwrap()[63].contains, 1 << 63);
    assert_eq!(generate_base(&[9; 65]).err(), Some(SolveError::TooManyNumbers));
}

#[test]
fn add_always_applies() {
    let (a, b) = pair(100, 50);
    let sum = add(&a, &b).unwrap().unwrap();
    assert_eq!(sum.value, 150);
    assert_eq!(sum.contains, 0b11);
    assert_eq!(sum.state.render(), "(100+50)");
    let (a, b) = pair(0, 0);
    assert_eq!(add(&a, &b).unwrap().unwrap().value, 0);
}

#[test]
fn add_reports_overflow() {
    let (a, b) = pair(u128::MAX, 1);
    assert_eq!(add(&a, &b).err(), Some(SolveError::Overflow));
    let (a, b) = pair(u128::MAX, 0);
    assert_eq!(add(&a, &b).unwrap().unwrap().value, u128::MAX);
}

#[test]
fn multiply_refuses_zero_and_one() {
    for (x, y) in [(0, 5), (1, 5), (5, 0), (5, 1), (1, 1), (0, 0)] {
        let (a, b) = pair(x, y);
        assert!(multiply(&a, &b).unwrap().is_none());
    }
    let (a, b) = pair(6, 7);
    let product = multiply(&a, &b).unwrap().unwrap();
    assert_eq!(product.value, 42);
    assert_eq!(product.contains, 0b11);
    assert_eq!(product.state.render(), "6*7");
}

#[test]
fn multiply_reports_overflow() {
    let (a, b) = pair(1 << 64, 1 << 64);
    assert_eq!(multiply(&a, &b).err(), Some(SolveError::Overflow));
    let (a, b) = pair(1 << 64, 1 << 63);
    assert_eq!(multiply(&a, &b).unwrap().unwrap().value, 1 << 127);
}

#[test]
fn subtract_stays_at_or_above_zero() {
    let (a, b) = pair(3, 10);
    assert!(subtract(&a, &b).is_none());
    let difference = subtract(&b, &a).unwrap();
    assert_eq!(difference.value, 7);
    assert_eq!(difference.contains, 0b11);
    assert_eq!(difference.state.render(), "(10-3)");
    let (a, b) = pair(4, 4);
    assert_eq!(subtract(&a, &b).unwrap().value, 0);
}

#[test]
fn divide_is_exact_or_refused() {
    let (a, b) = pair(10, 2);
    let quotient = divide(&a, &b).unwrap();
    assert_eq!(quotient.value, 5);
    assert_eq!(quotient.contains, 0b11);
    assert_eq!(quotient.state.render(), "10/(2)");
    assert!(divide(&b, &a).is_none());
    for (x, y) in [(10, 0), (10, 1), (10, 3), (0, 0), (7, 2)] {
        let (a, b) = pair(x, y);
        assert!(divide(&a, &b).is_none());
    }
    let (a, b) = pair(0, 5);
    assert_eq!(divide(&a, &b).unwrap().value, 0);
}

#[test]
fn operands_keep_their_order_and_their_nodes() {
    let (a, b) = pair(10, 2);
    let quotient = divide(&a, &b).unwrap();
    match &*quotient.state {
        State::Divide { o1, o2 } => {
            assert!(Rc::ptr_eq(o1, &a.state));
            assert!(Rc::ptr_eq(o2, &b.state));
        }
        _ => panic!("not a quotient"),
    }
    let node = (*quotient.state).clone();
    match &node {
        State::Divide { o1, o2 } => {
            assert!(Rc::ptr_eq(o1, &a.state));
            assert!(Rc::ptr_eq(o2, &b.state));
        }
        _ => panic!("not a quotient"),
    }
    let copy = a.clone();
    assert!(Rc::ptr_eq(&copy.state, &a.state));
    assert_eq!(copy.value, a.value);
    assert_eq!(copy.contains, a.contains);
}

#[test]
fn sharing_an_input_is_seen() {
    let base = generate_base(&[1, 2, 3]).unwrap();
    assert!(shares_dependencies(&base[0], &base[0]));
    assert!(!shares_dependencies(&base[0], &base[1]));
    let both = add(&base[0], &base[1]).unwrap().unwrap();
    assert!(shares_dependencies(&both, &base[0]));
    assert!(shares_dependencies(&base[1], &both));
    assert!(!shares_dependencies(&both, &base[2]));
}

#[test]
fn the_fingerprint_packs_value_above_mask() {
    let base = generate_base(&[5, 9, 1]).unwrap();
    assert_eq!(generate_hash(&base[1], &3), Ok((9 << 3) | 0b010));
    assert_eq!(generate_hash(&base[0], &3), Ok(41));
    assert_eq!(generate_hash(&base[0], &0), Ok(5 | 1));
    assert_eq!(generate_hash(&base[0], &64), Ok((5 << 64) | 1));
    assert_eq!(generate_hash(&base[0], &65), Err(SolveError::TooManyNumbers));
    let sum = add(&base[0], &base[2]).unwrap().unwrap();
    assert_eq!(generate_hash(&sum, &3), Ok((6 << 3) | 0b101));
}

#[test]
fn the_fingerprint_needs_room_for_the_mask() {
    let base = generate_base(&[u128::MAX >> 3, (u128::MAX >> 3) + 1]).unwrap();
    assert_eq!(generate_hash(&base[0], &3), Ok(((u128::MAX >> 3) << 3) | 1));
    assert_eq!(generate_hash(&base[1], &3), Err(SolveError::Overflow));
    assert_eq!(generate_hash(&base[1], &2), Ok((1 << 127) | 2));
}

#[test]
fn the_fingerprints_of_a_slice() {
    let base = generate_base(&[5, 9, 5]).unwrap();
    let hashes = generate_hashes(&base, &3).unwrap();
    let expected: HashSet<u128> = [41, 74, 44].into_iter().collect();
    assert_eq!(hashes, expected);
    assert_eq!(generate_hashes(&[], &3).unwrap().len(), 0);
    assert_eq!(generate_hashes(&base, &65).err(), Some(SolveError::TooManyNumbers));
    let large = generate_base(&[1, u128::MAX]).unwrap();
    assert_eq!(generate_hashes(&large, &2).err(), Some(SolveError::Overflow));
}

#[test]
fn combinations_come_in_the_order_of_the_operations() {
    let (a, b) = pair(6, 3);
    let found = combinations(&a, &b).unwrap();
    let values: Vec<u128> = found.iter().map(|e| e.value).collect();
    assert_eq!(values, vec![9, 18, 3, 2]);
    let shown: Vec<String> = found.iter().map(|e| e.state.render()).collect();
    assert_eq!(shown, vec!["(6+3)", "6*3", "(6-3)", "6/(3)"]);
    let found = combinations(&b, &a).unwrap();
    let values: Vec<u128> = found.iter().map(|e| e.value).collect();
    assert_eq!(values, vec![9, 18]);
    let (a, b) = pair(1, 1);
    let values: Vec<u128> = combinations(&a, &b).unwrap().iter().map(|e| e.value).collect();
    assert_eq!(values, vec![2, 0]);
    let (a, b) = pair(1 << 100, 1 << 100);
    assert_eq!(combinations(&a, &b).err(), Some(SolveError::Overflow));
}

#[test]
fn pairs_are_crossed_row_by_row() {
    let base = generate_base(&[2, 3]).unwrap();
    let mut hashes = generate_hashes(&base, &2).unwrap();
    let fresh = permutations(&base, &base, &mut hashes, &2).unwrap();
    let shown: Vec<String> = fresh.iter().map(|e| e.state.render()).collect();
    assert_eq!(shown, vec!["(2+3)", "2*3", "(3-2)"]);
    let expected: HashSet<u128> =
        [(2 << 2) | 1, (3 << 2) | 2, (5 << 2) | 3, (6 << 2) | 3, (1 << 2) | 3].into_iter().collect();
    assert_eq!(hashes, expected);
}

#[test]
fn every_pair_is_crossed_once() {
    let rows = generate_base(&[10, 20, 30]).unwrap();
    let columns: Vec<Expression> = generate_base(&[0, 0, 0, 2, 5]).unwrap().split_off(3);
    let mut hashes = HashSet::new();
    let fresh = permutations(&rows, &columns, &mut hashes, &5).unwrap();
    let shown: Vec<String> = fresh.iter().map(|e| e.state.render()).collect();
    assert_eq!(
        shown,
        vec![
            "(10+2)", "10*2", "(10-2)", "10/(2)", "(10+5)", "10*5", "(10-5)", "10/(5)", "(20+2)",
            "20*2", "(20-2)", "20/(2)", "(20+5)", "20*5", "(20-5)", "20/(5)", "(30+2)", "30*2",
            "(30-2)", "30/(2)", "(30+5)", "30*5", "(30-5)", "30/(5)",
        ]
    );
    assert_eq!(hashes.len(), 24);
    let none = permutations(&rows, &Vec::new(), &mut hashes, &5).unwrap();
    assert_eq!(none.len(), 0);
    let none = permutations(&Vec::new(), &columns, &mut hashes, &5).unwrap();
    assert_eq!(none.len(), 0);
    assert_eq!(hashes.len(), 24);
}

#[test]
fn what_was_seen_is_not_kept_again() {
    let base = generate_base(&[2, 3]).unwrap();
    let mut hashes = HashSet::new();
    hashes.insert((5u128 << 2) | 3);
    let fresh = permutations(&base, &base, &mut hashes, &2).unwrap();
    let shown: Vec<String> = fresh.iter().map(|e| e.state.render()).collect();
    assert_eq!(shown, vec!["2*3", "(3-2)"]);
    let again = permutations(&base, &base, &mut hashes, &2).unwrap();
    assert_eq!(again.len(), 0);
}

#[test]
fn crossing_reports_what_does_not_fit() {
    let base = generate_base(&[1 << 100, 1 << 100]).unwrap();
    let mut hashes = HashSet::new();
    assert_eq!(permutations(&base, &base, &mut hashes, &2).err(), Some(SolveError::Overflow));
    let base = generate_base(&[2, 3]).unwrap();
    assert_eq!(
        permutations(&base, &base, &mut hashes, &65).err(),
        Some(SolveError::TooManyNumbers)
    );
}

#[test]
fn nodes_are_written_in_infix() {
    let base = generate_base(&[100, 50, 3, 6]).unwrap();
    let sum = add(&base[0], &base[1]).unwrap().unwrap();
    let product = multiply(&base[2], &base[3]).unwrap().unwrap();
    let quotient = divide(&sum, &product).unwrap_or(sum.clone());
    assert_eq!(sum.state.render(), "(100+50)");
    assert_eq!(product.state.render(), "3*6");
    assert_eq!(quotient.state.render(), "(100+50)");
    let difference = subtract(&sum, &product).unwrap();
    assert_eq!(difference.state.render(), "((100+50)-3*6)");
    assert_eq!(difference.value, 132);
    let nested = divide(&difference, &base[3]).unwrap();
    assert_eq!(nested.state.render(), "((100+50)-3*6)/(6)");
    assert_eq!(nested.value, 22);
}

#[test]
fn numbers_are_written_in_decimal() {
    assert_eq!(decimal(0), "0");
    assert_eq!(decimal(9), "9");
    assert_eq!(decimal(10), "10");
    assert_eq!(decimal(952), "952");
    assert_eq!(decimal(1_000_000), "1000000");
    assert_eq!(decimal(u128::MAX), "340282366920938463463374607431768211455");
    assert_eq!(State::Base { value: 12345678901234567890 }.render(), "12345678901234567890");
}
