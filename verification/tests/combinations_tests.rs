use polymutate::index_combinations;

#[test]
fn pairs_of_four_in_lexicographic_order() {
    assert_eq!(
        index_combinations(4, 2),
        vec![vec![0, 1], vec![0, 2], vec![0, 3], vec![1, 2], vec![1, 3], vec![2, 3]]
    );
}

#[test]
fn zero_sized_request_gives_the_empty_combination() {
    assert_eq!(index_combinations(3, 0), vec![Vec::<usize>::new()]);
    assert_eq!(index_combinations(0, 0), vec![Vec::<usize>::new()]);
}

#[test]
fn oversized_requests_are_empty() {
    assert!(index_combinations(2, 3).is_empty());
    assert!(index_combinations(0, 1).is_empty());
}

#[test]
fn full_size_gives_one_combination() {
    assert_eq!(index_combinations(3, 3), vec![vec![0, 1, 2]]);
}

#[test]
fn count_is_binomial() {
    assert_eq!(index_combinations(10, 3).len(), 120);
    assert_eq!(index_combinations(7, 1).len(), 7);
}

#[test]
fn combinations_are_increasing_distinct_and_bounded() {
    let cs = index_combinations(6, 3);
    for c in &cs {
        assert_eq!(c.len(), 3);
        assert!(c.windows(2).all(|w| w[0] < w[1]));
        assert!(c.iter().all(|&i| i < 6));
    }
    for i in 0..cs.len() {
        for j in (i + 1)..cs.len() {
            assert_ne!(cs[i], cs[j]);
        }
    }
}
