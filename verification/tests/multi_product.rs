use product_with_repeat::{product, Product};

fn drain_product<'a, T, const N: usize>(mut it: Product<'a, T, N>) -> Vec<[&'a T; N]> {
    let mut out = Vec::new();
    while let Some(tuple) = it.next() {
        out.push(tuple);
    }
    out
}

#[test]
fn two_sources_in_order() {
    let letters = ["A", "B"];
    let numbers = ["1", "2", "3"];
    let mut it = product([&letters[..], &numbers[..]]);
    assert_eq!(it.next(), Some([&"A", &"1"]));
    assert_eq!(it.next(), Some([&"A", &"2"]));
    assert_eq!(it.next(), Some([&"A", &"3"]));
    assert_eq!(it.next(), Some([&"B", &"1"]));
    assert_eq!(it.next(), Some([&"B", &"2"]));
    assert_eq!(it.next(), Some([&"B", &"3"]));
    assert_eq!(it.next(), None);
}

#[test]
fn count_is_the_product_of_the_lengths() {
    let a = vec![1, 2];
    let b = vec![1, 2, 3];
    let c = vec![1, 2, 3, 4, 5];
    assert_eq!(drain_product(product([&a[..], &b[..], &c[..]])).len(), 30);
    assert_eq!(drain_product(product([&c[..], &a[..]])).len(), 10);
    assert_eq!(drain_product(product([&b[..]])).len(), 3);
}

#[test]
fn an_empty_source_leaves_no_tuple() {
    let a = vec![1, 2];
    let none: Vec<i32> = Vec::new();
    let mut first = product([&none[..], &a[..]]);
    assert_eq!(first.next(), None);
    assert_eq!(first.next(), None);
    let mut middle = product([&a[..], &none[..], &a[..]]);
    assert_eq!(middle.next(), None);
    let mut last = product([&a[..], &a[..], &none[..]]);
    assert_eq!(last.next(), None);
    let mut all = product([&none[..], &none[..]]);
    assert_eq!(all.next(), None);
}

#[test]
fn no_sources_yield_one_empty_tuple() {
    let sources: [&[i32]; 0] = [];
    let mut it = product(sources);
    assert_eq!(it.next(), Some([]));
    assert_eq!(it.next(), None);
    assert_eq!(it.next(), None);
}

#[test]
fn each_position_counts_in_its_own_radix() {
    let a = [0usize, 1, 2];
    let b = [0usize];
    let c = [0usize, 1];
    let all = drain_product(product([&a[..], &b[..], &c[..]]));
    assert_eq!(
        all,
        vec![[&0, &0, &0], [&0, &0, &1], [&1, &0, &0], [&1, &0, &1], [&2, &0, &0], [&2, &0, &1]]
    );
}

#[test]
fn product_every_combination_appears_exactly_once() {
    let a = [0usize, 1];
    let b = [0usize, 1, 2];
    let all = drain_product(product([&a[..], &b[..]]));
    assert_eq!(all.len(), 6);
    for x in 0..2usize {
        for y in 0..3usize {
            let hits = all.iter().filter(|t| **t == [&x, &y]).count();
            assert_eq!(hits, 1);
        }
    }
}

#[test]
fn product_consecutive_tuples_increase_lexicographically() {
    let a = [0usize, 1, 2];
    let b = [0usize, 1];
    let c = [0usize, 1, 2, 3];
    let all = drain_product(product([&a[..], &b[..], &c[..]]));
    assert_eq!(all.len(), 24);
    for pair in all.windows(2) {
        assert!(pair[0] < pair[1]);
    }
}

#[test]
fn product_two_iterators_over_the_same_sources_agree() {
    let a = vec!['a', 'b'];
    let b = vec!['c', 'd', 'e'];
    let first = drain_product(product([&a[..], &b[..]]));
    let second = drain_product(product([&a[..], &b[..]]));
    assert_eq!(first, second);
}

#[test]
fn product_exhausted_iterator_stays_exhausted() {
    let a = [1, 2];
    let b = [3];
    let mut it = product([&a[..], &b[..]]);
    assert_eq!(it.next(), Some([&1, &3]));
    assert_eq!(it.next(), Some([&2, &3]));
    for _ in 0..10 {
        assert_eq!(it.next(), None);
    }
}

#[test]
fn product_of_one_source_with_itself_is_the_repeat_product() {
    let source = [1, 2, 3];
    let fixed = drain_product(product([&source[..], &source[..]]));
    let mut repeated =
        product_with_repeat::ProductWithRepeat::product_with_repeat(&source[..], 2);
    for tuple in &fixed {
        assert_eq!(repeated.next(), Some(tuple.to_vec()));
    }
    assert_eq!(repeated.next(), None);
}
