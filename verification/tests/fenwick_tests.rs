use lib::data_structures::fenwick::FenwickTree;

#[test]
fn new_tree_of_any_small_size() {
    let _empty = FenwickTree::new(0);
    let _one = FenwickTree::new(1);
    let _many = FenwickTree::new(1000);
}

#[test]
fn from_slice_builds_trees() {
    let _empty = FenwickTree::from_slice(&[]);
    let _single = FenwickTree::from_slice(&[42]);
    let values: Vec<usize> = (1..=100).collect();
    let _hundred = FenwickTree::from_slice(&values);
}

#[test]
fn add_to_every_index() {
    let mut tree = FenwickTree::from_slice(&[1, 2, 3, 4, 5, 6, 7, 8, 9]);
    for index in 0..9 {
        tree.add(index, index + 1);
    }
    let mut zeros = FenwickTree::new(16);
    zeros.add(0, 5);
    zeros.add(15, 7);
    zeros.add(7, 0);
}
