use rpx_patch::order::order_by;

#[test]
fn indices_are_arranged_by_rank() {
    assert_eq!(order_by(&vec![]), Vec::<usize>::new());
    assert_eq!(order_by(&vec![5]), vec![0]);
    assert_eq!(order_by(&vec![3, 1, 2]), vec![1, 2, 0]);
    assert_eq!(order_by(&vec![1, 2, 3]), vec![0, 1, 2]);
    assert_eq!(order_by(&vec![u128::MAX, 0, u128::MAX, 0]), vec![1, 3, 0, 2]);
}

#[test]
fn indices_of_the_same_rank_keep_their_order() {
    assert_eq!(order_by(&vec![2, 1, 2, 1, 2]), vec![1, 3, 0, 2, 4]);
}
