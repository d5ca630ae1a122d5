use fairdice::{
    count_permutation_occurences, is_sorted, is_word_permutation_fair_up_to, subset_word,
    DiceTuple, FDTS,
};

#[test]
fn helpers() {
    assert!(is_sorted(&[1, 2, 2, 5]));
    assert!(!is_sorted(&[2, 1]));
    assert!(is_sorted(&[]));
    let w = vec![0u8, 3, 1, 2, 0];
    assert_eq!(subset_word(&w, &[0, 2]), vec![0u8, 2, 0]);
}

#[test]
fn single_d6_trivial_set() {
    let d6 = FDTS::new_single(6);
    assert_eq!(d6.dice.len(), 1);
    assert_eq!(d6.dice[0].as_string(), "AAAAAA");
    assert_eq!(d6.prefixes.len(), 7);
}

#[test]
fn small_mixed_fairness() {
    let f = FDTS::new_empty(&[2, 3]);
    let a = DiceTuple::from_string(&f, "ABBBA");
    assert_eq!(count_permutation_occurences(&vec![0, 1], &a.word), 3);
    assert_eq!(count_permutation_occurences(&vec![1, 0], &a.word), 3);
    assert!(is_word_permutation_fair_up_to(&a.word, &vec![0, 1], 2));
    let b = DiceTuple::from_string(&f, "BBAAB");
    assert!(!is_word_permutation_fair_up_to(&b.word, &vec![0, 1], 2));
}

#[test]
fn subset_fairness_difference() {
    let w = vec![0, 1, 2, 2, 1, 0];
    assert!(!is_word_permutation_fair_up_to(&w, &vec![0, 1, 2], 3));
    assert!(is_word_permutation_fair_up_to(&w, &vec![0, 1, 2], 2));
}

#[test]
fn round_trip_forms() {
    let f = FDTS::new_empty(&[2, 3, 4]);
    let d1 = DiceTuple::from_word(&f, &vec![0, 2, 1, 1, 2, 0, 1, 2, 2]);
    let d2 = DiceTuple::from_word(&f, &d1.word);
    let d3 = DiceTuple::from_numbers(&f, &d1.numbers);
    assert!(d1 == d2);
    assert!(d1 == d3);
}

#[test]
fn prefix_set_is_prefix_closure() {
    let d6 = FDTS::new_single(6);
    let f = FDTS::new_combined(d6.mapped_as(&[0, -1]), d6.mapped_as(&[-1, 0]), &[], 2);
    for dt in &f.dice {
        for l in 0..=dt.word.len() {
            let p: Vec<u8> = dt.word[..l].to_vec();
            assert!(f.prefixes.contains_word(&p));
        }
    }
    // a word that is no prefix of any fair two-dice word
    assert!(!f.prefixes.contains_word(&vec![1, 1, 1, 1, 1, 1, 1]));
}

#[test]
fn combine_is_symmetric() {
    let d6 = FDTS::new_single(6);
    let ab = FDTS::new_combined(d6.mapped_as(&[0, -1]), d6.mapped_as(&[-1, 0]), &[], 2);
    let ba = FDTS::new_combined(d6.mapped_as(&[-1, 0]), d6.mapped_as(&[0, -1]), &[], 2);
    let mut wa: Vec<Vec<u8>> = ab.dice.iter().map(|d| d.word.clone()).collect();
    let mut wb: Vec<Vec<u8>> = ba.dice.iter().map(|d| d.word.clone()).collect();
    wa.sort();
    wb.sort();
    assert_eq!(wa, wb);
}

#[test]
fn lex_canonical_words() {
    let d6 = FDTS::new_single(6);
    let f = FDTS::new_combined(d6.mapped_as(&[0, -1]), d6.mapped_as(&[-1, 0]), &[], 2);
    for dt in &f.dice {
        // relabeling the two equal-size dice into each other never lowers the word
        let swapped: Vec<u8> = dt.word.iter().map(|&x| 1 - x).collect();
        assert!(swapped >= dt.word);
    }
}

#[test]
fn three_d6_projections() {
    let d6 = FDTS::new_single(6);
    let dd = FDTS::new_combined(d6.mapped_as(&[0, -1]), d6.mapped_as(&[-1, 0]), &[], 2);
    let a = dd.mapped_as(&[0, 1, -1]);
    let b = dd.mapped_as(&[0, -1, 1]);
    let c = dd.mapped_as(&[-1, 0, 1]);
    let ddd = FDTS::new_combined(a, b, &[c], 3);
    assert!(ddd.dice.len() > 0);
    let pair_words: Vec<Vec<u8>> = dd.dice.iter().map(|d| d.word.clone()).collect();
    for dt in &ddd.dice {
        for (s0, s1) in [(0u8, 1u8), (0, 2), (1, 2)] {
            let projected: Vec<u8> = dt
                .word
                .iter()
                .filter(|&&x| x == s0 || x == s1)
                .map(|&x| if x == s0 { 0 } else { 1 })
                .collect();
            assert!(pair_words.contains(&projected));
        }
    }
}
