use holowm::binarytree::BinaryTree;
use holowm::binarytree::HorizontalOrVertical;
use holowm::binarytree::TiledHoloWindow;
use holowm::binarytree::DEFAULT_RATIO;

fn record(id: u64) -> TiledHoloWindow {
    TiledHoloWindow { element: id, split: HorizontalOrVertical::Horizontal, ratio: DEFAULT_RATIO }
}

fn count_leaves(t: &BinaryTree) -> usize {
    match t {
        BinaryTree::Empty => 0,
        BinaryTree::Window(_) => 1,
        BinaryTree::Split { left, right, .. } => count_leaves(left) + count_leaves(right),
    }
}

fn count_splits(t: &BinaryTree) -> usize {
    match t {
        BinaryTree::Empty => 0,
        BinaryTree::Window(_) => 0,
        BinaryTree::Split { left, right, .. } => 1 + count_splits(left) + count_splits(right),
    }
}

#[test]
fn new_tree_is_empty() {
    assert_eq!(BinaryTree::new(), BinaryTree::Empty);
    assert_eq!(count_leaves(&BinaryTree::new()), 0);
    assert_eq!(count_splits(&BinaryTree::new()), 0);
}

#[test]
fn insert_counts_n_leaves_n_minus_one_splits() {
    let mut t = BinaryTree::new();
    for n in 1..6u64 {
        t.insert(record(n));
        assert_eq!(count_leaves(&t), n as usize);
        assert_eq!(count_splits(&t), (n - 1) as usize);
        assert_eq!(t.len(), n as usize);
    }
}

#[test]
fn first_two_windows_split_in_place() {
    let mut t = BinaryTree::new();
    t.insert(record(1));
    assert_eq!(t, BinaryTree::Window(record(1)));
    t.insert(record(2));
    assert_eq!(
        t,
        BinaryTree::Split {
            split: HorizontalOrVertical::Horizontal,
            ratio: DEFAULT_RATIO,
            left: Box::new(BinaryTree::Window(record(1))),
            right: Box::new(BinaryTree::Window(record(2))),
        }
    );
}

#[test]
fn third_window_becomes_rightmost_leaf() {
    let mut t = BinaryTree::new();
    t.insert(record(1));
    t.insert(record(2));
    t.insert(record(3));
    assert_eq!(t.last(), Some(record(3)));
    match &t {
        BinaryTree::Split { left, right, .. } => {
            assert_eq!(**left, BinaryTree::Window(record(1)));
            match &**right {
                BinaryTree::Split { left: l2, right: r2, .. } => {
                    assert_eq!(**l2, BinaryTree::Window(record(2)));
                    assert_eq!(**r2, BinaryTree::Window(record(3)));
                }
                other => panic!("unexpected right subtree {:?}", other),
            }
        }
        other => panic!("unexpected tree {:?}", other),
    }
}

#[test]
fn last_prefers_right_falls_back_left() {
    let mut t = BinaryTree::new();
    assert_eq!(t.last(), None);
    t.insert(record(1));
    t.insert(record(2));
    t.remove(2);
    // the right leaf became Empty, so the left leaf is the last one
    assert_eq!(t.last(), Some(record(1)));
}

#[test]
fn remove_leaves_stale_empty_in_split() {
    let mut t = BinaryTree::new();
    t.insert(record(1));
    t.insert(record(2));
    t.remove(1);
    assert_eq!(
        t,
        BinaryTree::Split {
            split: HorizontalOrVertical::Horizontal,
            ratio: DEFAULT_RATIO,
            left: Box::new(BinaryTree::Empty),
            right: Box::new(BinaryTree::Window(record(2))),
        }
    );
}

#[test]
fn remove_only_window_empties_tree() {
    let mut t = BinaryTree::new();
    t.insert(record(7));
    t.remove(7);
    assert_eq!(t, BinaryTree::Empty);
}

#[test]
fn remove_absent_window_is_noop() {
    let mut t = BinaryTree::new();
    t.insert(record(1));
    t.insert(record(2));
    t.insert(record(3));
    let before = t.clone();
    t.remove(99);
    assert_eq!(t, before);
}
