use hl_blobox::order::stable_order;

#[test]
fn equal_keys_keep_their_order() {
    assert_eq!(stable_order(&[3, 1, 3, 2, 1]), [1, 4, 3, 0, 2]);
    assert!(stable_order(&[]).is_empty());
    assert_eq!(stable_order(&[i128::MAX, i128::MIN]), [1, 0]);
}

#[test]
fn sorted_keys_stay() {
    assert_eq!(stable_order(&[-4, -4, 0, 7, 7, 9]), [0, 1, 2, 3, 4, 5]);
}
