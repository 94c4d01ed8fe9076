use lau_tropical_geometry_agents::linear_algebra::next_permutation;

#[test]
fn next_permutation_walks_all_permutations_in_order() {
    let mut p = vec![0, 1, 2];
    let mut seen = vec![p.clone()];
    while next_permutation(&mut p) {
        seen.push(p.clone());
    }
    assert_eq!(
        seen,
        vec![vec![0, 1, 2], vec![0, 2, 1], vec![1, 0, 2], vec![1, 2, 0], vec![2, 0, 1], vec![2, 1, 0]]
    );
    // The last permutation is left unchanged.
    assert_eq!(p, vec![2, 1, 0]);
}

#[test]
fn next_permutation_with_repeated_elements() {
    let mut p = vec![1, 1, 2];
    assert!(next_permutation(&mut p));
    assert_eq!(p, vec![1, 2, 1]);
    assert!(next_permutation(&mut p));
    assert_eq!(p, vec![2, 1, 1]);
    assert!(!next_permutation(&mut p));
    assert_eq!(p, vec![2, 1, 1]);
}

#[test]
fn next_permutation_short_sequences() {
    let mut empty: Vec<usize> = vec![];
    assert!(!next_permutation(&mut empty));
    assert!(empty.is_empty());
    let mut one = vec![5];
    assert!(!next_permutation(&mut one));
    assert_eq!(one, vec![5]);
    let mut two = vec![3, 4];
    assert!(next_permutation(&mut two));
    assert_eq!(two, vec![4, 3]);
}

#[test]
fn next_permutation_pivot_in_the_middle() {
    let mut p = vec![1, 3, 5, 4, 2];
    assert!(next_permutation(&mut p));
    assert_eq!(p, vec![1, 4, 2, 3, 5]);
}

#[test]
fn next_permutation_counts_factorial() {
    let mut p: Vec<usize> = (0..5).collect();
    let mut count = 1;
    while next_permutation(&mut p) {
        count += 1;
    }
    assert_eq!(count, 120);
}
