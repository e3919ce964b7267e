use decision_tree::impurity::Fraction;
use decision_tree::tree::{check_dataset, predict_node, Node, Tree, TreeError};

fn rows(data: &[&[i32]]) -> Vec<Vec<i32>> {
    data.iter().map(|r| r.to_vec()).collect()
}

fn depth(node: &Node) -> usize {
    match node {
        Node::Leaf { .. } => 0,
        Node::Decision { left, right, .. } => 1 + depth(left).max(depth(right)),
    }
}

fn gains_positive(node: &Node) -> bool {
    match node {
        Node::Leaf { .. } => true,
        Node::Decision { info_gain, left, right, .. } => {
            info_gain.num > 0 && info_gain.den > 0 && gains_positive(left) && gains_positive(right)
        }
    }
}

fn mixed_dataset() -> Vec<Vec<i32>> {
    rows(&[
        &[1, 7, 0],
        &[2, 3, 1],
        &[3, 8, 0],
        &[4, 1, 1],
        &[5, 9, 2],
        &[6, 2, 1],
        &[7, 6, 2],
        &[8, 5, 0],
    ])
}

#[test]
fn gini_single_class_is_zero() {
    let t = Tree::new(2, 3);
    let g = t.gini_index(&vec![3, 3, 3]);
    assert_eq!(g.num, 0);
    assert_eq!(g.den, 9);
}

#[test]
fn gini_balanced_classes() {
    let t = Tree::new(2, 3);
    let g = t.gini_index(&vec![1, 1, 2, 2, 3, 3]);
    assert_eq!(g, Fraction { num: 24, den: 36 });
    assert_eq!(g.num * 3, g.den * 2);
}

#[test]
fn gini_exact_value() {
    let t = Tree::new(2, 3);
    assert_eq!(t.gini_index(&vec![0, 0, 1]), Fraction { num: 4, den: 9 });
}

#[test]
fn information_gain_perfect_split() {
    let t = Tree::new(2, 3);
    let g = t.information_gain(&vec![0, 0, 1, 1], &vec![0, 0], &vec![1, 1]);
    assert_eq!(g, Fraction { num: 32, den: 64 });
}

#[test]
fn information_gain_uneven_split() {
    let t = Tree::new(2, 3);
    let g = t.information_gain(&vec![0, 0, 1, 1], &vec![0], &vec![0, 1, 1]);
    assert_eq!(g, Fraction { num: 8, den: 48 });
}

#[test]
fn calc_leaf_majority_with_tie() {
    let t = Tree::new(2, 3);
    assert_eq!(t.calc_leaf(&vec![2, 1, 1, 2, 3]), 1);
    assert_eq!(t.calc_leaf(&vec![5, 4, 5]), 5);
    assert_eq!(t.calc_leaf(&vec![9]), 9);
}

#[test]
fn split_left_and_right() {
    let t = Tree::new(2, 3);
    let d = rows(&[&[1, 0], &[3, 1], &[2, 0], &[4, 1]]);
    assert_eq!(t.split_left(&d, 0, 2), rows(&[&[1, 0], &[2, 0]]));
    assert_eq!(t.split_right(&d, 0, 2), rows(&[&[3, 1], &[4, 1]]));
}

#[test]
fn best_split_of_separable_data() {
    let t = Tree::new(2, 2);
    let d = rows(&[&[1, 0], &[2, 0], &[3, 1], &[4, 1]]);
    let s = t.get_best_split(&d, 1).unwrap();
    assert_eq!(s.feature_index, 0);
    assert_eq!(s.threshold, 2);
    assert_eq!(s.info_gain, Fraction { num: 32, den: 64 });
    assert_eq!(s.dataset_left, rows(&[&[1, 0], &[2, 0]]));
    assert_eq!(s.dataset_right, rows(&[&[3, 1], &[4, 1]]));
}

#[test]
fn best_split_sides_partition_parent() {
    let t = Tree::new(2, 3);
    let d = mixed_dataset();
    let s = t.get_best_split(&d, 2).unwrap();
    assert!(!s.dataset_left.is_empty());
    assert!(!s.dataset_right.is_empty());
    assert_eq!(s.dataset_left.len() + s.dataset_right.len(), d.len());
}

#[test]
fn best_split_tie_prefers_lowest_feature() {
    let t = Tree::new(2, 3);
    let d = rows(&[&[1, 1, 0], &[2, 2, 1]]);
    let s = t.get_best_split(&d, 2).unwrap();
    assert_eq!(s.feature_index, 0);
    assert_eq!(s.threshold, 1);
}

#[test]
fn best_split_none_when_all_values_equal() {
    let t = Tree::new(2, 3);
    let d = rows(&[&[4, 0], &[4, 1]]);
    assert!(t.get_best_split(&d, 1).is_none());
}

#[test]
fn built_tree_respects_max_depth() {
    for max_depth in 0..4u16 {
        let mut t = Tree::new(2, max_depth);
        t.build(&mixed_dataset()).unwrap();
        assert!(depth(t.root.as_ref().unwrap()) <= max_depth as usize);
    }
}

#[test]
fn decision_nodes_have_positive_gain() {
    let mut t = Tree::new(2, 5);
    t.build(&mixed_dataset()).unwrap();
    assert!(gains_positive(t.root.as_ref().unwrap()));
}

#[test]
fn building_twice_gives_same_tree() {
    let mut a = Tree::new(2, 4);
    let mut b = Tree::new(2, 4);
    a.build(&mixed_dataset()).unwrap();
    b.build(&mixed_dataset()).unwrap();
    assert_eq!(a.root, b.root);
}

#[test]
fn training_rows_predict_their_labels_when_fully_grown() {
    let d = mixed_dataset();
    let mut t = Tree::new(2, 10);
    t.build(&d).unwrap();
    for row in &d {
        let features = row[..row.len() - 1].to_vec();
        assert_eq!(t.predict(&features), Ok(row[row.len() - 1]));
    }
}

#[test]
fn separable_dataset_scenario() {
    let mut t = Tree::new(2, 2);
    t.build(&rows(&[&[1, 0], &[2, 0], &[3, 1], &[4, 1]])).unwrap();
    match t.root.as_ref().unwrap() {
        Node::Decision { feature_index, threshold, info_gain, left, right } => {
            assert_eq!(*feature_index, 0);
            assert_eq!(*threshold, 2);
            assert!(info_gain.num > 0);
            assert_eq!(**left, Node::Leaf { value: 0 });
            assert_eq!(**right, Node::Leaf { value: 1 });
        }
        Node::Leaf { .. } => panic!("expected a decision node"),
    }
    assert_eq!(t.predict(&vec![2]), Ok(0));
    assert_eq!(t.predict(&vec![3]), Ok(1));
}

#[test]
fn single_row_gives_leaf() {
    for (ms, md) in [(2u16, 3u16), (0, 0), (1, 5), (7, 1)] {
        let mut t = Tree::new(ms, md);
        t.build(&rows(&[&[5, 1]])).unwrap();
        assert_eq!(t.root, Some(Node::Leaf { value: 1 }));
    }
}

#[test]
fn single_label_dataset_gives_leaf() {
    for (ms, md) in [(2u16, 3u16), (0, 9), (1, 1)] {
        let mut t = Tree::new(ms, md);
        t.build(&rows(&[&[1, 4, 7], &[2, 3, 7], &[9, 0, 7]])).unwrap();
        assert_eq!(t.root, Some(Node::Leaf { value: 7 }));
    }
}

#[test]
fn max_depth_zero_gives_majority_leaf() {
    let mut t = Tree::new(2, 0);
    t.build(&mixed_dataset()).unwrap();
    assert_eq!(t.root, Some(Node::Leaf { value: 0 }));
}

#[test]
fn large_min_samples_split_gives_leaf() {
    let mut t = Tree::new(100, 5);
    t.build(&mixed_dataset()).unwrap();
    assert_eq!(t.root, Some(Node::Leaf { value: 0 }));
}

#[test]
fn invalid_datasets_are_refused() {
    let mut t = Tree::new(2, 3);
    assert_eq!(t.build(&vec![]), Err(TreeError::InvalidDataset));
    assert_eq!(t.build(&rows(&[&[1, 0], &[2]])), Err(TreeError::InvalidDataset));
    assert_eq!(t.build(&rows(&[&[1], &[2]])), Err(TreeError::InvalidDataset));
    assert!(t.root.is_none());
    assert!(!check_dataset(&rows(&[&[1, 2, 3], &[1, 2]])));
    assert!(check_dataset(&rows(&[&[1, 2, 3], &[1, 2, 4]])));
}

#[test]
fn predict_out_of_range_and_not_built() {
    let mut t = Tree::new(2, 2);
    assert_eq!(t.predict(&vec![1]), Err(TreeError::NotBuilt));
    t.build(&rows(&[&[1, 0], &[2, 0], &[3, 1], &[4, 1]])).unwrap();
    assert_eq!(t.predict(&vec![]), Err(TreeError::OutOfRange));
    let leaf = Node::Leaf { value: 3 };
    assert_eq!(predict_node(&leaf, &vec![]), Ok(3));
}

#[test]
fn build_tree_from_given_depth() {
    let t = Tree::new(2, 2);
    let d = rows(&[&[1, 0], &[2, 0], &[3, 1], &[4, 1]]);
    assert_eq!(t.build_tree(&d, 2), Node::Leaf { value: 0 });
    assert!(matches!(t.build_tree(&d, 1), Node::Decision { .. }));
}
