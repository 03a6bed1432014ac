use multi_avl::{Cmp, MultiAVL, TotalOrder};
use rand::rngs::StdRng;
use rand::seq::SliceRandom;
use rand::SeedableRng;

fn collect(tree: &MultiAVL<i32>) -> Vec<i32> {
    let mut out = Vec::new();
    let mut it = tree.iter();
    while let Some(v) = it.next(tree) {
        out.push(v);
    }
    out
}

#[test]
fn empty_tree_queries() {
    let tree: MultiAVL<i32> = MultiAVL::new();
    assert_eq!(tree.size(), 0);
    assert!(tree.is_empty());
    assert_eq!(tree.min_value(), None);
    assert_eq!(tree.max_value(), None);
    assert!(tree.min_iter().is_none());
    assert!(tree.max_iter().is_none());
    let mut it = tree.iter();
    assert_eq!(it.next(&tree), None);
    assert_eq!(it.next(&tree), None);
    assert_eq!(tree.height(), 0);
    assert!(!tree.contains(0));
    assert!(tree.check_consistent().is_ok());
}

#[test]
fn round_trip_with_counts() {
    let mut tree = MultiAVL::new();
    for v in [5, 1, 2, 1, 5, 1] {
        tree.insert(v);
    }
    let mut it = tree.iter();
    let mut got = Vec::new();
    while let Some(v) = it.next(&tree) {
        got.push(v);
    }
    assert_eq!(got, vec![1, 1, 1, 2, 5, 5]);
    assert_eq!(it.next(&tree), None);
    assert_eq!(got.len(), tree.size());
    assert_eq!(tree.size(), 6);
}

#[test]
fn two_children_erase_scenario() {
    let mut tree = MultiAVL::new();
    for v in [2, 1, 3] {
        tree.insert(v);
    }
    assert_eq!(tree.height(), 1);
    assert_eq!(tree.entry_at(&vec![]), Some((2, 1)));
    assert_eq!(tree.entry_at(&vec![false]), Some((1, 1)));
    assert_eq!(tree.entry_at(&vec![true]), Some((3, 1)));
    tree.erase(2);
    assert_eq!(tree.entry_at(&vec![]), Some((1, 1)));
    assert_eq!(tree.entry_at(&vec![false]), None);
    assert_eq!(tree.entry_at(&vec![true]), Some((3, 1)));
    assert_eq!(tree.entry_at(&vec![true, true]), None);
    assert_eq!(tree.size(), 2);
    assert!(!tree.contains(2));
    assert!(tree.contains(1));
    assert!(tree.contains(3));
    assert_eq!(collect(&tree), vec![1, 3]);
    assert_eq!(tree.height(), 1);
    assert_eq!(tree.min_value(), Some(1));
    assert_eq!(tree.max_value(), Some(3));
    assert!(tree.check_consistent().is_ok());
}

#[test]
fn inserts_keep_every_value_and_count() {
    let values = [9, -4, 9, 0, 17, -4, 3, 9, i32::MIN, i32::MAX];
    let mut tree = MultiAVL::new();
    for (k, v) in values.iter().enumerate() {
        tree.insert(*v);
        assert_eq!(tree.size(), k + 1);
        for w in &values[..=k] {
            assert!(tree.contains(*w));
        }
        assert!(tree.check_consistent().is_ok());
    }
    assert_eq!(tree.min_value(), Some(i32::MIN));
    assert_eq!(tree.max_value(), Some(i32::MAX));
}

#[test]
fn erase_of_absent_value_changes_nothing() {
    let mut tree = MultiAVL::new();
    for v in [4, 8, 15, 16, 23, 42] {
        tree.insert(v);
    }
    let before = collect(&tree);
    tree.erase(7);
    tree.erase(-1);
    tree.erase(100);
    assert_eq!(tree.size(), 6);
    assert_eq!(collect(&tree), before);
    for v in [4, 8, 15, 16, 23, 42] {
        assert!(tree.contains(v));
    }
    assert!(!tree.contains(7));
}

#[test]
fn k_inserts_then_k_erases() {
    let mut tree = MultiAVL::new();
    tree.insert(1);
    tree.insert(10);
    for _ in 0..3 {
        tree.insert(7);
    }
    assert_eq!(tree.size(), 5);
    tree.erase(7);
    assert!(tree.contains(7));
    tree.erase(7);
    assert!(tree.contains(7));
    tree.erase(7);
    assert!(!tree.contains(7));
    assert_eq!(tree.size(), 2);
    tree.erase(7);
    assert!(!tree.contains(7));
    assert_eq!(tree.size(), 2);
    assert!(tree.check_consistent().is_ok());
}

#[test]
fn balanced_height_at_scale() {
    let n: i32 = 1000;
    let mut orders: Vec<Vec<i32>> = vec![(0..n).collect(), (0..n).rev().collect()];
    let mut shuffled: Vec<i32> = (0..n).collect();
    shuffled.shuffle(&mut StdRng::seed_from_u64(7));
    orders.push(shuffled);
    for order in orders {
        let mut tree = MultiAVL::new();
        for v in &order {
            tree.insert(*v);
            assert!(tree.check_consistent().is_ok());
        }
        assert_eq!(tree.size(), n as usize);
        // an AVL tree of 1000 nodes has between 10 and 14 levels
        assert!(tree.height() >= 9);
        assert!(tree.height() <= 13);
    }
    let mut tree = MultiAVL::new();
    for v in 0..n {
        tree.insert(v);
    }
    // ascending inserts fill the levels completely
    assert_eq!(tree.height(), 9);
}

#[test]
fn random_insert_erase_reaches_empty() {
    let n: i32 = 1000;
    let mut nums: Vec<i32> = (0..n).collect();
    let mut rng = StdRng::seed_from_u64(11);
    nums.shuffle(&mut rng);
    let mut tree = MultiAVL::new();
    for v in &nums {
        tree.insert(*v);
        assert!(tree.check_consistent().is_ok());
    }
    nums.shuffle(&mut rng);
    for (k, v) in nums.iter().enumerate() {
        tree.erase(*v);
        assert!(!tree.contains(*v));
        assert_eq!(tree.size(), nums.len() - k - 1);
        assert!(tree.check_consistent().is_ok());
    }
    assert_eq!(tree.size(), 0);
    assert!(tree.is_empty());
    assert_eq!(tree.min_value(), None);
    assert_eq!(tree.max_value(), None);
}

#[test]
fn max_iter_yields_the_largest_copies_then_stops() {
    let mut tree = MultiAVL::new();
    for v in [3, 9, 1, 9, 5] {
        tree.insert(v);
    }
    let mut it = tree.max_iter().unwrap();
    assert_eq!(it.next(&tree), Some(9));
    assert_eq!(it.next(&tree), Some(9));
    assert_eq!(it.next(&tree), None);
    let mut it = tree.min_iter().unwrap();
    assert_eq!(it.next(&tree), Some(1));
    assert_eq!(it.next(&tree), Some(3));
}

#[test]
fn cursor_stops_when_its_value_is_gone() {
    let mut tree = MultiAVL::new();
    for v in [1, 2, 2, 3] {
        tree.insert(v);
    }
    let mut it = tree.iter();
    assert_eq!(it.next(&tree), Some(1));
    assert_eq!(it.next(&tree), Some(2));
    tree.erase(2);
    // one copy of 2 is left, and it was not yet handed out
    assert_eq!(it.next(&tree), Some(2));
    assert_eq!(it.next(&tree), Some(3));
    assert_eq!(it.next(&tree), None);

    let mut it = tree.iter();
    assert_eq!(it.next(&tree), Some(1));
    tree.erase(2);
    assert_eq!(it.next(&tree), None);
    assert_eq!(it.next(&tree), None);
}

#[test]
fn erase_through_a_cursor() {
    let mut tree = MultiAVL::new();
    for v in [4, 6, 6, 8] {
        tree.insert(v);
    }
    let mut it = tree.iter();
    assert_eq!(it.next(&tree), Some(4));
    tree.erase_iter(it);
    assert_eq!(collect(&tree), vec![4, 6, 8]);
    let it = tree.max_iter().unwrap();
    tree.erase_iter(it);
    assert_eq!(collect(&tree), vec![4, 6]);
    assert_eq!(tree.max_value(), Some(6));

    let it = tree.min_iter().unwrap();
    tree.erase(4);
    // the cursor's value is gone: erasing through it does nothing
    tree.erase_iter(it);
    assert_eq!(collect(&tree), vec![6]);
    assert!(tree.check_consistent().is_ok());
}

#[test]
fn extremes_follow_erases() {
    let mut tree = MultiAVL::new();
    for v in [5, 5, 2, 9, 7] {
        tree.insert(v);
    }
    assert_eq!(tree.min_value(), Some(2));
    assert_eq!(tree.max_value(), Some(9));
    tree.erase(9);
    assert_eq!(tree.max_value(), Some(7));
    tree.erase(2);
    assert_eq!(tree.min_value(), Some(5));
    tree.erase(5);
    assert_eq!(tree.min_value(), Some(5));
    tree.erase(5);
    assert_eq!(tree.min_value(), Some(7));
    assert_eq!(tree.max_value(), Some(7));
}

#[test]
fn integer_order_compares_and_copies() {
    assert!(matches!(3i32.compare(&5), Cmp::Less));
    assert!(matches!(5i32.compare(&5), Cmp::Equal));
    assert!(matches!(i32::MAX.compare(&i32::MIN), Cmp::Greater));
    assert_eq!((-7i32).duplicate(), -7);
}

fn all_paths(depth: usize) -> Vec<Vec<bool>> {
    let mut out = vec![vec![]];
    let mut layer: Vec<Vec<bool>> = vec![vec![]];
    for _ in 0..depth {
        let mut next = Vec::new();
        for p in &layer {
            for side in [false, true] {
                let mut q = p.clone();
                q.push(side);
                next.push(q);
            }
        }
        out.extend(next.iter().cloned());
        layer = next;
    }
    out
}

fn shape(tree: &MultiAVL<i32>) -> Vec<Option<(i32, usize)>> {
    all_paths(6).iter().map(|p| tree.entry_at(p)).collect()
}

#[test]
fn extra_copies_change_only_a_count() {
    let mut tree = MultiAVL::new();
    for v in [10, 5, 15, 3, 7, 12, 20, 1] {
        tree.insert(v);
    }
    let before = shape(&tree);
    let height = tree.height();
    tree.insert(7);
    let after = shape(&tree);
    for (b, a) in before.iter().zip(after.iter()) {
        match b {
            Some((7, c)) => assert_eq!(*a, Some((7, c + 1))),
            _ => assert_eq!(a, b),
        }
    }
    assert_eq!(tree.height(), height);
    tree.erase(7);
    assert_eq!(shape(&tree), before);
    assert_eq!(tree.min_value(), Some(1));
    assert_eq!(tree.max_value(), Some(20));
}

#[test]
fn one_child_is_spliced_into_place() {
    let mut tree = MultiAVL::new();
    for v in [2, 1, 4, 3] {
        tree.insert(v);
    }
    assert_eq!(tree.entry_at(&vec![true]), Some((4, 1)));
    assert_eq!(tree.entry_at(&vec![true, false]), Some((3, 1)));
    tree.erase(4);
    assert_eq!(tree.entry_at(&vec![]), Some((2, 1)));
    assert_eq!(tree.entry_at(&vec![true]), Some((3, 1)));
    assert_eq!(tree.entry_at(&vec![true, false]), None);
    assert!(tree.check_consistent().is_ok());
}

#[test]
fn exhausted_cursor_stays_exhausted() {
    let mut tree = MultiAVL::new();
    tree.insert(7);
    let mut it = tree.iter();
    tree.erase(7);
    assert_eq!(it.next(&tree), None);
    tree.insert(7);
    assert_eq!(it.next(&tree), None);
    tree.erase_iter(it);
    assert_eq!(tree.size(), 1);
    assert!(tree.contains(7));
}

#[test]
fn cursor_of_an_erased_value_erases_nothing() {
    let mut tree = MultiAVL::new();
    tree.insert(7);
    let it = tree.iter();
    tree.erase(7);
    tree.insert(8);
    tree.erase_iter(it);
    assert_eq!(tree.size(), 1);
    assert!(tree.contains(8));
    assert!(!tree.contains(7));
}

#[test]
fn cursor_on_a_reinserted_value_is_gone() {
    let mut tree = MultiAVL::new();
    tree.insert(7);
    let mut it = tree.iter();
    tree.erase(7);
    tree.insert(7);
    assert_eq!(it.next(&tree), None);
    tree.erase_iter(it);
    assert_eq!(tree.size(), 1);
}

#[test]
fn cursor_on_the_swapped_predecessor_is_gone() {
    let mut tree = MultiAVL::new();
    for v in [2, 1, 3] {
        tree.insert(v);
    }
    let it = tree.iter();
    let mut probe = tree.iter();
    tree.erase(2);
    // the node that held 1 left the tree; 1 now sits in the old root
    assert!(tree.contains(1));
    assert_eq!(probe.next(&tree), None);
    tree.erase_iter(it);
    assert_eq!(tree.size(), 2);
    assert!(tree.contains(1));
    assert_eq!(collect(&tree), vec![1, 3]);
}
