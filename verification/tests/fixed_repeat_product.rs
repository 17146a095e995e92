use product_with_repeat::known_size::{Iter, ProductWithRepeat};

fn drain_fixed<'a, T, const REPEAT: usize>(mut it: Iter<'a, T, REPEAT>) -> Vec<[&'a T; REPEAT]> {
    let mut out = Vec::new();
    while let Some(tuple) = it.next() {
        out.push(tuple);
    }
    out
}

#[test]
fn known_size_two_elements_twice_in_order() {
    let source = ['A', 'B'];
    let mut it = source.product_with_repeat::<2>();
    assert_eq!(it.next(), Some([&'A', &'A']));
    assert_eq!(it.next(), Some([&'A', &'B']));
    assert_eq!(it.next(), Some([&'B', &'A']));
    assert_eq!(it.next(), Some([&'B', &'B']));
    assert_eq!(it.next(), None);
}

#[test]
fn known_size_empty_source_with_positive_length_yields_nothing() {
    let source: [u8; 0] = [];
    let mut it = source.product_with_repeat::<3>();
    assert_eq!(it.next(), None);
    assert_eq!(it.next(), None);
}

#[test]
fn known_size_length_zero_yields_one_empty_tuple() {
    let source = ['X'];
    let mut it = source.product_with_repeat::<0>();
    assert_eq!(it.next(), Some([]));
    assert_eq!(it.next(), None);
}

#[test]
fn known_size_empty_source_with_length_zero_yields_one_empty_tuple() {
    let source: [char; 0] = [];
    let mut it = source.product_with_repeat::<0>();
    assert_eq!(it.next(), Some([]));
    assert_eq!(it.next(), None);
}

#[test]
fn known_size_count_is_length_to_the_power_of_repeat() {
    let source = [0u8, 1, 2];
    assert_eq!(drain_fixed(source.product_with_repeat::<0>()).len(), 1);
    assert_eq!(drain_fixed(source.product_with_repeat::<1>()).len(), 3);
    assert_eq!(drain_fixed(source.product_with_repeat::<2>()).len(), 9);
    assert_eq!(drain_fixed(source.product_with_repeat::<4>()).len(), 81);
}

#[test]
fn known_size_agrees_with_the_runtime_length_variant() {
    let source = vec![3, 1, 4, 1];
    let fixed = drain_fixed(source.product_with_repeat::<3>());
    let mut dynamic = product_with_repeat::ProductWithRepeat::product_with_repeat(&source[..], 3);
    for tuple in &fixed {
        assert_eq!(dynamic.next(), Some(tuple.to_vec()));
    }
    assert_eq!(dynamic.next(), None);
    assert_eq!(fixed.len(), 64);
}

#[test]
fn known_size_every_combination_appears_exactly_once() {
    let source = [0usize, 1, 2];
    let all = drain_fixed(source.product_with_repeat::<2>());
    assert_eq!(all.len(), 9);
    for a in 0..3usize {
        for b in 0..3usize {
            let hits = all.iter().filter(|t| **t == [&a, &b]).count();
            assert_eq!(hits, 1);
        }
    }
}

#[test]
fn known_size_consecutive_tuples_increase_lexicographically() {
    let source = [0usize, 1, 2];
    let all = drain_fixed(source.product_with_repeat::<3>());
    for pair in all.windows(2) {
        assert!(pair[0] < pair[1]);
    }
}

#[test]
fn known_size_two_iterators_over_one_source_agree() {
    let source = ["x", "y"];
    let first = drain_fixed(source.product_with_repeat::<3>());
    let second = drain_fixed(source.product_with_repeat::<3>());
    assert_eq!(first, second);
}

#[test]
fn known_size_exhausted_iterator_stays_exhausted() {
    let source = [1, 2, 3];
    let mut it = source.product_with_repeat::<2>();
    while it.next().is_some() {}
    for _ in 0..10 {
        assert_eq!(it.next(), None);
    }
}

#[test]
fn known_size_tuple_holds_each_position_in_order() {
    let source = ['p', 'q', 'r'];
    let mut it = source.product_with_repeat::<3>();
    for _ in 0..5 {
        it.next();
    }
    // 5 = 0 * 9 + 1 * 3 + 2
    assert_eq!(it.next(), Some([&'p', &'q', &'r']));
}
