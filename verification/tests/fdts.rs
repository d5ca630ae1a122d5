use fairdice::{DiceTuple, FDTS};

#[test]
fn test_basic() {
    let f = FDTS::new_empty(&[2, 3, 4]);
    assert!(f.offsets == [0, 2, 5]);
    assert!(f.total == 9);
    let d1 = DiceTuple::from_numbers(&f, &vec![0, 5, 2, 3, 6, 1, 4, 7, 8]);
    let d2 = DiceTuple::from_word(&f, &vec![0, 2, 1, 1, 2, 0, 1, 2, 2]);
    assert!(d1 == d2);
    assert!(d1.as_string() == "ACBBCABCC")
}

#[test]
fn fdts_test_d6_d6() {
    let d6 = FDTS::new_single(6);
    assert_eq!(d6.dice.len(), 1);
    assert_eq!(d6.prefixes.len(), 7);
    let d6_d6 = FDTS::new_combined(d6.mapped_as(&[0, -1]), d6.mapped_as(&[-1, 0]), &[], 2);
    assert_eq!(d6_d6.dice.len(), 29);
    assert_eq!(d6_d6.prefixes.len(), 200);
}

#[test]
fn fdts_combine_test_d6_d6() {
    let d6 = FDTS::new_single(6);
    assert_eq!(d6.dice.len(), 1);
    assert_eq!(d6.prefixes.len(), 7);
    let d6_d6 = FDTS::new_combined(d6.mapped_as(&[0, -1]), d6.mapped_as(&[-1, 0]), &[], 2);
    assert_eq!(d6_d6.dice.len(), 29);
    assert_eq!(d6_d6.prefixes.len(), 200);
}
