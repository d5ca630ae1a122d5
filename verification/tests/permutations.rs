use fairdice::{count_permutation_occurences, is_word_permutation_fair, is_word_permutation_fair_up_to};

#[test]
fn test_fairness() {
    assert_eq!(is_word_permutation_fair(&vec![], &vec![42, 43]), true);
    assert_eq!(is_word_permutation_fair(&vec![1, 1, 1, 1], &vec![2]), true);
    assert_eq!(is_word_permutation_fair(&vec![1, 1, 1, 1], &vec![1]), true);
    assert_eq!(is_word_permutation_fair(&vec![1, 1, 1, 0], &vec![0, 1]), false);
    assert_eq!(is_word_permutation_fair(&vec![0, 1, 2, 2, 1, 0], &vec![0, 1, 2]), false);
    assert_eq!(
        is_word_permutation_fair(&vec![3, 1, 3, 2, 2, 2, 1, 3, 3, 3, 3, 1, 2], &vec![1, 2, 3]),
        true
    );
    assert_eq!(
        is_word_permutation_fair(&vec![1, 3, 3, 2, 2, 2, 1, 3, 3, 3, 3, 1, 2], &vec![1, 2, 3]),
        false
    );

    assert_eq!(is_word_permutation_fair_up_to(&vec![0, 1, 2, 2, 1, 0], &vec![0, 1, 2], 3), false);
    assert_eq!(is_word_permutation_fair_up_to(&vec![0, 1, 2, 2, 1, 0], &vec![0, 1, 2], 2), true);
}

#[test]
fn test_counting() {
    assert_eq!(count_permutation_occurences(&vec![1], &vec![0, 2]), 0);
    assert_eq!(count_permutation_occurences(&vec![1], &vec![1]), 1);
    assert_eq!(count_permutation_occurences(&vec![0, 1], &vec![0, 1, 2, 0, 1]), 3);
    assert_eq!(count_permutation_occurences(&vec![2], &vec![2; 42]), 42);
    assert_eq!(
        count_permutation_occurences(&vec![0, 3, 2, 1], &vec![0, 1, 2, 3, 0, 3, 4, 2, 1, 0, 0, 2, 1, 3]),
        9
    );
}
