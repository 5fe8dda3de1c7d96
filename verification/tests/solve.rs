use countdown::engine::generate_base;
use countdown::engine::generate_useful;
use countdown::find_combination;
use countdown::solver::closest;
use countdown::Expression;
use countdown::SolveError;
use countdown::State;

fn evaluate(state: &State) -> u128 {
    match state {
        State::Add { o1, o2 } => evaluate(o1) + evaluate(o2),
        State::Multiply { o1, o2 } => evaluate(o1) * evaluate(o2),
        State::Subtract { o1, o2 } => evaluate(o1) - evaluate(o2),
        State::Divide { o1, o2 } => evaluate(o1) / evaluate(o2),
        State::Base { value } => *value,
    }
}

fn leaves(state: &State, into: &mut Vec<u128>) {
    match state {
        State::Add { o1, o2 }
        | State::Multiply { o1, o2 }
        | State::Subtract { o1, o2 }
        | State::Divide { o1, o2 } => {
            leaves(o1, into);
            leaves(o2, into);
        }
        State::Base { value } => into.push(*value),
    }
}

fn marked(numbers: &[u128], mask: u64) -> Vec<u128> {
    let mut out = Vec::new();
    for (i, n) in numbers.iter().enumerate() {
        if (mask >> i) & 1 == 1 {
            out.push(*n);
        }
    }
    out
}

fn guarded(state: &State) -> bool {
    match state {
        State::Add { o1, o2 } => guarded(o1) && guarded(o2),
        State::Multiply { o1, o2 } => {
            guarded(o1) && guarded(o2) && evaluate(o1) > 1 && evaluate(o2) > 1
        }
        State::Subtract { o1, o2 } => guarded(o1) && guarded(o2) && evaluate(o2) <= evaluate(o1),
        State::Divide { o1, o2 } => {
            guarded(o1) && guarded(o2) && evaluate(o2) > 1 && evaluate(o1) % evaluate(o2) == 0
        }
        State::Base { .. } => true,
    }
}

fn reach(values: &[u128], seen: &mut Vec<u128>) {
    for v in values {
        if !seen.contains(v) {
            seen.push(*v);
        }
    }
    for i in 0..values.len() {
        for j in 0..values.len() {
            if i == j {
                continue;
            }
            let (a, b) = (values[i], values[j]);
            let mut made = vec![a + b];
            if a > 1 && b > 1 {
                made.push(a * b);
            }
            if b <= a {
                made.push(a - b);
            }
            if b > 1 && a % b == 0 {
                made.push(a / b);
            }
            for m in made {
                let mut rest: Vec<u128> = Vec::new();
                for (k, v) in values.iter().enumerate() {
                    if k != i && k != j {
                        rest.push(*v);
                    }
                }
                rest.push(m);
                reach(&rest, seen);
            }
        }
    }
}

fn population(numbers: &[u128]) -> Vec<Expression> {
    let base = generate_base(numbers).unwrap();
    generate_useful(&base).unwrap()
}

#[test]
fn six_numbers_reach_952() {
    let numbers = [25, 50, 75, 100, 3, 6];
    let found = find_combination(&numbers, &952).unwrap();
    assert_eq!(found.value, 952);
    assert_eq!(found.value.abs_diff(952), 0);
    assert_eq!(evaluate(&found.state), 952);
}

#[test]
fn two_ones_can_only_be_added() {
    let found = find_combination(&[1, 1], &5).unwrap();
    assert_eq!(found.value, 2);
    assert_eq!(found.value.abs_diff(5), 3);
    assert_eq!(found.state.render(), "(1+1)");
    assert_eq!(found.contains, 0b11);
}

#[test]
fn ten_by_two_divides() {
    let found = find_combination(&[10, 2], &5).unwrap();
    assert_eq!(found.value, 5);
    assert_eq!(found.value.abs_diff(5), 0);
    assert_eq!(found.state.render(), "10/(2)");
}

#[test]
fn no_numbers_is_an_error() {
    assert_eq!(find_combination(&[], &0).err(), Some(SolveError::EmptyInput));
    assert_eq!(find_combination(&[], &952).err(), Some(SolveError::EmptyInput));
}

#[test]
fn one_number_is_its_own_answer() {
    let found = find_combination(&[7], &100).unwrap();
    assert_eq!(found.value, 7);
    assert_eq!(found.value.abs_diff(100), 93);
    assert_eq!(found.contains, 1);
    assert!(matches!(*found.state, State::Base { value: 7 }));
}

#[test]
fn more_numbers_than_mask_bits_is_an_error() {
    let numbers = vec![0u128; 65];
    assert_eq!(find_combination(&numbers, &1).err(), Some(SolveError::TooManyNumbers));
    let numbers = vec![1u128; 200];
    assert_eq!(find_combination(&numbers, &1).err(), Some(SolveError::TooManyNumbers));
}

#[test]
fn a_leaf_too_large_is_an_error() {
    assert_eq!(find_combination(&[u128::MAX, 2], &5).err(), Some(SolveError::Overflow));
    assert_eq!(find_combination(&[u128::MAX], &5).err(), Some(SolveError::Overflow));
    let largest = u128::MAX >> 1;
    assert_eq!(find_combination(&[largest], &5).unwrap().value, largest);
}

#[test]
fn a_product_too_large_is_an_error() {
    let big = 1u128 << 100;
    assert_eq!(find_combination(&[big, big], &5).err(), Some(SolveError::Overflow));
}

#[test]
fn a_sum_too_large_is_an_error() {
    let half = 1u128 << 125;
    assert_eq!(find_combination(&[half, half], &5).err(), Some(SolveError::Overflow));
    let small = 1u128 << 62;
    assert_eq!(find_combination(&[small, small], &(1u128 << 124)).unwrap().value, 1u128 << 124);
}

#[test]
fn the_mask_is_not_empty_and_stays_within_the_numbers() {
    let cases: Vec<(Vec<u128>, u128)> = vec![
        (vec![25, 50, 75, 100, 3, 6], 952),
        (vec![1, 1], 5),
        (vec![10, 2], 5),
        (vec![7], 100),
        (vec![3, 7, 8], 29),
    ];
    for (numbers, target) in cases {
        let found = find_combination(&numbers, &target).unwrap();
        assert_ne!(found.contains, 0);
        assert_eq!(found.contains >> numbers.len(), 0);
    }
}

#[test]
fn every_value_is_what_its_node_evaluates_to() {
    for e in population(&[2, 3, 5, 7]) {
        assert_eq!(evaluate(&e.state), e.value);
    }
    let found = find_combination(&[3, 7, 8], &29).unwrap();
    assert_eq!(found.value, 29);
    assert_eq!(evaluate(&found.state), 29);
}

#[test]
fn every_position_is_a_leaf_at_most_once() {
    let numbers = [4, 4, 9, 2];
    for e in population(&numbers) {
        let mut found = Vec::new();
        leaves(&e.state, &mut found);
        assert_eq!(found.len() as u32, e.contains.count_ones());
        let mut expected = marked(&numbers, e.contains);
        found.sort();
        expected.sort();
        assert_eq!(found, expected);
    }
}

#[test]
fn the_same_input_gives_the_same_answer() {
    let numbers = [25, 50, 75, 100, 3, 6];
    let first = find_combination(&numbers[..5], &431).unwrap();
    let second = find_combination(&numbers[..5], &431).unwrap();
    assert_eq!(first.value, second.value);
    assert_eq!(first.contains, second.contains);
    assert_eq!(first.state.render(), second.state.render());
}

#[test]
fn no_two_expressions_have_value_and_inputs_in_common() {
    let all = population(&[1, 2, 3, 4, 6]);
    let mut keys: Vec<(u128, u64)> = all.iter().map(|e| (e.value, e.contains)).collect();
    let count = keys.len();
    keys.sort();
    keys.dedup();
    assert_eq!(keys.len(), count);
}

#[test]
fn the_population_begins_with_the_leaves() {
    let all = population(&[8, 5, 8]);
    assert_eq!(all[0].value, 8);
    assert_eq!(all[0].contains, 0b001);
    assert_eq!(all[1].value, 5);
    assert_eq!(all[1].contains, 0b010);
    assert_eq!(all[2].value, 8);
    assert_eq!(all[2].contains, 0b100);
    assert_eq!(all[3].contains.count_ones(), 2);
}

#[test]
fn two_numbers_give_this_population() {
    let all = population(&[2, 3]);
    let shown: Vec<String> = all.iter().map(|e| e.state.render()).collect();
    assert_eq!(shown, vec!["2", "3", "(2+3)", "2*3", "(3-2)"]);
    let values: Vec<u128> = all.iter().map(|e| e.value).collect();
    assert_eq!(values, vec![2, 3, 5, 6, 1]);
}

#[test]
fn of_several_as_close_the_first_built_wins() {
    let found = find_combination(&[2, 4], &3).unwrap();
    assert_eq!(found.value, 2);
    assert_eq!(found.state.render(), "2");
    let found = find_combination(&[4, 2], &3).unwrap();
    assert_eq!(found.value, 4);
    assert_eq!(found.state.render(), "4");
}

#[test]
fn closest_picks_the_first_of_the_nearest() {
    let all = population(&[2, 4]);
    let values: Vec<u128> = all.iter().map(|e| e.value).collect();
    assert_eq!(values, vec![2, 4, 6, 8, 2]);
    assert_eq!(closest(&all, &3), Some(0));
    assert_eq!(closest(&all, &5), Some(1));
    assert_eq!(closest(&all, &7), Some(2));
    assert_eq!(closest(&all, &1000), Some(3));
    assert_eq!(closest(&all, &0), Some(0));
    assert_eq!(closest(&[], &3), None);
}

#[test]
fn fewer_than_all_numbers_may_be_the_answer() {
    let found = find_combination(&[5, 100, 7], &12).unwrap();
    assert_eq!(found.value, 12);
    assert_eq!(found.contains, 0b101);
    assert_eq!(found.state.render(), "(5+7)");
}

#[test]
fn growing_from_nothing_is_an_error() {
    assert_eq!(generate_useful(&[]).err(), Some(SolveError::EmptyInput));
}

#[test]
fn nothing_closer_can_be_reached() {
    let numbers = [3, 7, 8, 2];
    let mut values = Vec::new();
    reach(&numbers, &mut values);
    for target in 0..400u128 {
        let nearest = values.iter().map(|v| v.abs_diff(target)).min().unwrap();
        let found = find_combination(&numbers, &target).unwrap();
        assert_eq!(found.value.abs_diff(target), nearest);
    }
}

#[test]
fn every_value_that_can_be_reached_is_built() {
    let numbers = [1, 5, 5, 10];
    let mut values = Vec::new();
    reach(&numbers, &mut values);
    let mut built: Vec<u128> = population(&numbers).iter().map(|e| e.value).collect();
    values.sort();
    built.sort();
    built.dedup();
    assert_eq!(built, values);
}

#[test]
fn every_node_passes_its_guards() {
    for e in population(&[0, 1, 2, 6]) {
        assert!(guarded(&e.state));
    }
    let found = find_combination(&[25, 50, 75, 100, 3, 6], &952).unwrap();
    assert!(guarded(&found.state));
}

#[test]
fn the_answer_is_the_first_closest_of_what_is_built() {
    let numbers = [4, 9, 2, 6];
    let all = population(&numbers);
    for target in [0u128, 1, 7, 23, 100, 431, 10_000] {
        let found = find_combination(&numbers, &target).unwrap();
        let k = closest(&all, &target).unwrap();
        assert_eq!(found.value, all[k].value);
        assert_eq!(found.contains, all[k].contains);
        assert_eq!(found.state.render(), all[k].state.render());
        for e in &all[..k] {
            assert!(e.value.abs_diff(target) > found.value.abs_diff(target));
        }
        for e in &all {
            assert!(e.value.abs_diff(target) >= found.value.abs_diff(target));
        }
    }
}

#[test]
fn a_value_without_room_for_the_mask_is_an_error() {
    let limit = u128::MAX >> 2;
    assert_eq!(find_combination(&[limit, 0], &limit).unwrap().value, limit);
    assert_eq!(find_combination(&[limit, 1], &5).err(), Some(SolveError::Overflow));
    assert_eq!(find_combination(&[limit - 1, 1], &0).unwrap().value, 1);
}
