use algolib::cartesian_tree::{cartesian_tree_down, cartesian_tree_up};

#[test]
fn cartesian_tree_test() {
    let nil = usize::MAX;
    assert_eq!(cartesian_tree_up(&vec![1, 2, 3]), [nil, 0, 1]);
    assert_eq!(
        cartesian_tree_down(&vec![1, 2, 3]),
        [(nil, 1), (nil, 2), (nil, nil)]
    );
    assert_eq!(cartesian_tree_up(&vec![1, 1, 1]), [nil, 0, 1]);
    assert_eq!(cartesian_tree_up(&vec![3, 1, 2]), [1, nil, 1]);
    assert_eq!(
        cartesian_tree_down(&vec![3, 1, 2]),
        [(nil, nil), (0, 2), (nil, nil)]
    );
    assert_eq!(cartesian_tree_up(&vec![3, 2, 1]), [1, 2, nil]);
}
