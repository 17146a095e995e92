use product_with_repeat::{Iter, ProductWithRepeat};

fn drain<'a, T>(mut it: Iter<'a, T>) -> Vec<Vec<&'a T>> {
    let mut out = Vec::new();
    while let Some(tuple) = it.next() {
        out.push(tuple);
    }
    out
}

#[test]
fn two_elements_twice_in_order() {
    let source = ['A', 'B'];
    let mut it = source.product_with_repeat(2);
    assert_eq!(it.next(), Some(vec![&'A', &'A']));
    assert_eq!(it.next(), Some(vec![&'A', &'B']));
    assert_eq!(it.next(), Some(vec![&'B', &'A']));
    assert_eq!(it.next(), Some(vec![&'B', &'B']));
    assert_eq!(it.next(), None);
}

#[test]
fn empty_source_with_positive_length_yields_nothing() {
    let source: [u8; 0] = [];
    let mut it = source.product_with_repeat(3);
    assert_eq!(it.next(), None);
    assert_eq!(it.next(), None);
}

#[test]
fn length_zero_yields_one_empty_tuple() {
    let source = ['X'];
    let mut it = source.product_with_repeat(0);
    assert_eq!(it.next(), Some(vec![]));
    assert_eq!(it.next(), None);
}

#[test]
fn empty_source_with_length_zero_yields_one_empty_tuple() {
    let source: Vec<i32> = Vec::new();
    let mut it = source.product_with_repeat(0);
    assert_eq!(it.next(), Some(vec![]));
    assert_eq!(it.next(), None);
}

#[test]
fn single_element_source_yields_one_tuple() {
    let source = vec![7];
    let all = drain(source.product_with_repeat(4));
    assert_eq!(all, vec![vec![&7, &7, &7, &7]]);
}

#[test]
fn three_elements_once() {
    let source = [1, 2, 3];
    let all = drain(source.product_with_repeat(1));
    assert_eq!(all, vec![vec![&1], vec![&2], vec![&3]]);
}

#[test]
fn count_is_length_to_the_power_of_repeat() {
    let source = [0u8, 1, 2];
    assert_eq!(drain(source.product_with_repeat(0)).len(), 1);
    assert_eq!(drain(source.product_with_repeat(1)).len(), 3);
    assert_eq!(drain(source.product_with_repeat(2)).len(), 9);
    assert_eq!(drain(source.product_with_repeat(4)).len(), 81);
    let pair = [true, false];
    assert_eq!(drain(pair.product_with_repeat(10)).len(), 1024);
    let none: [bool; 0] = [];
    assert_eq!(drain(none.product_with_repeat(1)).len(), 0);
    assert_eq!(drain(none.product_with_repeat(5)).len(), 0);
}

#[test]
fn every_combination_appears_exactly_once() {
    let source = [0usize, 1, 2];
    let all = drain(source.product_with_repeat(3));
    assert_eq!(all.len(), 27);
    for a in 0..3usize {
        for b in 0..3usize {
            for c in 0..3usize {
                let hits = all.iter().filter(|t| *t == &vec![&a, &b, &c]).count();
                assert_eq!(hits, 1);
            }
        }
    }
    for i in 0..all.len() {
        for j in (i + 1)..all.len() {
            assert_ne!(all[i], all[j]);
        }
    }
}

#[test]
fn consecutive_tuples_increase_lexicographically() {
    let source = [0usize, 1, 2, 3];
    let all = drain(source.product_with_repeat(3));
    assert_eq!(all.len(), 64);
    for pair in all.windows(2) {
        assert!(pair[0] < pair[1]);
    }
}

#[test]
fn tuple_at_a_given_place_has_the_digits_of_the_place() {
    let source = [0usize, 1, 2];
    let all = drain(source.product_with_repeat(3));
    // 16 = 1 * 9 + 2 * 3 + 1
    assert_eq!(all[16], vec![&1, &2, &1]);
    assert_eq!(all[0], vec![&0, &0, &0]);
    assert_eq!(all[26], vec![&2, &2, &2]);
}

#[test]
fn carry_runs_through_several_positions() {
    let source = ['a', 'b'];
    let mut it = source.product_with_repeat(3);
    for _ in 0..3 {
        it.next();
    }
    assert_eq!(it.next(), Some(vec![&'a', &'b', &'b']));
    assert_eq!(it.next(), Some(vec![&'b', &'a', &'a']));
}

#[test]
fn two_iterators_over_one_source_agree() {
    let source = vec!["x", "y", "z"];
    let first = drain(source.product_with_repeat(3));
    let second = drain(source.product_with_repeat(3));
    assert_eq!(first, second);
    let mut a = source.product_with_repeat(2);
    let mut b = source.product_with_repeat(2);
    loop {
        let x = a.next();
        let y = b.next();
        assert_eq!(x, y);
        if x.is_none() {
            break;
        }
    }
}

#[test]
fn exhausted_iterator_stays_exhausted() {
    let source = [1, 2];
    let mut it = source.product_with_repeat(2);
    while it.next().is_some() {}
    for _ in 0..10 {
        assert_eq!(it.next(), None);
    }
    let mut empty_tuples = source.product_with_repeat(0);
    assert!(empty_tuples.next().is_some());
    for _ in 0..10 {
        assert_eq!(empty_tuples.next(), None);
    }
}

#[test]
fn repeated_elements_are_not_merged() {
    let source = [5, 5];
    let all = drain(source.product_with_repeat(2));
    assert_eq!(all, vec![vec![&5, &5]; 4]);
}

#[test]
fn yields_references_into_the_source() {
    let source = vec![String::from("left"), String::from("right")];
    let mut it = source.product_with_repeat(2);
    it.next();
    let second = it.next().unwrap();
    assert!(std::ptr::eq(second[0], &source[0]));
    assert!(std::ptr::eq(second[1], &source[1]));
}

#[test]
fn item_len_is_the_repeat_count() {
    let source = [1, 2, 3];
    assert_eq!(source.product_with_repeat(0).item_len(), 0);
    assert_eq!(source.product_with_repeat(5).item_len(), 5);
    let mut it = source.product_with_repeat(2);
    while it.next().is_some() {}
    assert_eq!(it.item_len(), 2);
}

#[test]
fn works_on_slices_vectors_and_arrays() {
    let array = [1, 2];
    let vector = vec![1, 2];
    let slice: &[i32] = &vector[..];
    let from_array = drain(array.product_with_repeat(2));
    let from_vector = drain(vector.product_with_repeat(2));
    let from_slice = drain(slice.product_with_repeat(2));
    assert_eq!(from_array, from_vector);
    assert_eq!(from_vector, from_slice);
    assert_eq!(from_slice, vec![vec![&1, &1], vec![&1, &2], vec![&2, &1], vec![&2, &2]]);
}
