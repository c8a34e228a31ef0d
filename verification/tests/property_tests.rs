use bstree::Tree;

fn drain(tree: Tree) -> Vec<i64> {
    let mut out = Vec::new();
    let mut it = tree.into_iter();
    while let Some(v) = it.next() {
        out.push(v);
    }
    out
}

#[test]
fn test_inorder_is_sorted() {
    let tree = Tree::from_iter(vec![8, 3, 10, 1, 6, 14, 4, 7, 13, -5, 3, 8]);
    let values = drain(tree);
    for pair in values.windows(2) {
        assert!(pair[0] < pair[1]);
    }
}

#[test]
fn test_borrowing_iter_matches_owned_iter() {
    let tree = Tree::from_iter(vec![5, -2, 9, 0, 7, 12, -8]);
    let mut borrowed = Vec::new();
    let mut it = tree.iter();
    while let Some(v) = it.next() {
        borrowed.push(v);
    }
    // the tree is still intact and usable after borrowing iteration
    assert_eq!(tree.len(), 7);
    assert_eq!(borrowed, drain(tree));
}

#[test]
fn test_len_counts_distinct_values_only() {
    let mut tree = Tree::empty();
    for v in [4, 4, 2, 7, 2, 4, 7, 1] {
        tree.insert(v);
    }
    assert_eq!(tree.len(), 4);
}

#[test]
fn test_duplicate_insert_changes_nothing() {
    let mut tree = Tree::from_iter(vec![2, 1, 3]);
    tree.insert(2);
    tree.insert(1);
    tree.insert(3);
    assert_eq!(tree.len(), 3);
    assert!(tree == Tree::from_iter(vec![2, 1, 3]));
    assert_eq!(drain(tree), vec![1, 2, 3]);
}

#[test]
fn test_contains_present_and_absent() {
    let tree = Tree::from_iter(vec![5, 3, 8, 1]);
    for v in [5, 3, 8, 1] {
        let found = tree.contains(&v).expect("inserted value must be found");
        assert_eq!(found.data, v);
    }
    assert!(tree.contains(&2).is_none());
    assert!(tree.contains(&9).is_none());
    assert!(tree.contains(&-1).is_none());
}

#[test]
fn test_fold_visits_each_value_once() {
    let tree = Tree::from_iter(vec![5, 3, 8, 1, 4, 7, 9]);
    let count = tree.fold(0, |acc, _x| acc + 1);
    assert_eq!(count, 7);
    let sum = tree.fold(0, |acc, x| acc + x);
    let sorted_sum: i64 = {
        let mut s: i64 = 0;
        let mut it = tree.iter();
        while let Some(v) = it.next() {
            s += v;
        }
        s
    };
    assert_eq!(sum, sorted_sum);
}

#[test]
fn test_map_values_matches_direct_mapping() {
    let mut tree = Tree::from_iter(vec![4, 2, 6, 1, 3]);
    let mut expected = Vec::new();
    let mut it = tree.iter();
    while let Some(v) = it.next() {
        expected.push(v * 10);
    }
    tree.map_values(|v| v * 10);
    let mut actual = Vec::new();
    let mut it2 = tree.iter();
    while let Some(v) = it2.next() {
        actual.push(v);
    }
    assert_eq!(actual, expected);
}

#[test]
fn test_map_values_rewrites_in_place() {
    // A non-monotone rewrite: each in-order slot keeps its position, so
    // the traversal afterwards reports the rewritten values slot by slot.
    let mut tree = Tree::from_iter(vec![2, 1, 3]);
    tree.map_values(|v| -v);
    assert_eq!(drain(tree), vec![-1, -2, -3]);
}

#[test]
fn test_mutable_cursor_increment_sums_to_21() {
    let mut tree = Tree::from_iter(vec![0, 1, 2, 3, 4, 5]);
    let mut cursor = tree.iter_mut();
    while let Some(v) = cursor.next() {
        cursor.put(v + 1);
    }
    tree = cursor.into_tree();
    let total: i64 = drain(tree).into_iter().sum();
    assert_eq!(total, 21);
}

#[test]
fn test_mutable_cursor_put_overwrites_and_skips() {
    let mut tree = Tree::from_iter(vec![1, 2, 3]);
    let mut cursor = tree.iter_mut();
    assert_eq!(cursor.next(), Some(1));
    cursor.put(10);
    cursor.put(100);  // a second put overwrites the first
    assert_eq!(cursor.next(), Some(2));  // no put: the value stays
    tree = cursor.into_tree();  // finishes the walk over the rest
    assert_eq!(drain(tree), vec![100, 2, 3]);
}

#[test]
fn test_structural_equality() {
    // the same multiset of values, inserted in different orders that
    // produce the same shape
    let a = Tree::from_iter(vec![4, 2, 6, 1, 3, 5, 7]);
    let b = Tree::from_iter(vec![4, 6, 2, 3, 1, 7, 5]);
    assert!(a == b);
    // equal values, different shapes
    let c = Tree::from_iter(vec![1, 2, 3]);
    let d = Tree::from_iter(vec![2, 1, 3]);
    assert!(c != d);
    // different values, same shape
    let e = Tree::from_iter(vec![2, 1, 3]);
    let g = Tree::from_iter(vec![20, 10, 30]);
    assert!(e != g);
}

#[test]
fn test_empty_tree() {
    let tree = Tree::empty();
    assert!(tree.is_empty());
    assert_eq!(tree.len(), 0);
    assert_eq!(tree.par_len(), 0);
    assert!(tree.contains(&0).is_none());
    let mut it = tree.iter();
    assert_eq!(it.next(), None);
    assert_eq!(drain(tree), Vec::<i64>::new());

    let mut other = Tree::empty();
    let mut cursor = other.iter_mut();
    assert_eq!(cursor.next(), None);
    other = cursor.into_tree();
    assert!(other.is_empty());
}

#[test]
fn test_seeded_tree() {
    let mut tree = Tree::new(7);
    assert!(!tree.is_empty());
    assert_eq!(tree.len(), 1);
    assert!(tree.contains(&7).is_some());
    tree.insert(7);
    assert_eq!(tree.len(), 1);
}

#[test]
fn test_par_len_matches_len() {
    let tree = Tree::from_iter(vec![1, 2, 3, 4, 5, 6, 7, 8, -18, -10, -1, -2]);
    assert_eq!(tree.par_len(), 12);
    assert_eq!(tree.par_len(), tree.len());
    let skewed = Tree::from_iter(vec![1, 2, 3, 4, 5]);
    assert_eq!(skewed.par_len(), 5);
}

#[test]
fn test_extend_composition() {
    // extending by a concatenation equals extending by the parts in turn,
    // as whole tree states, not just as value sequences
    let mut t1 = Tree::empty();
    t1.extend(vec![5, 4, 6]);
    let mut t2 = Tree::empty();
    t2.extend(vec![5, 4]);
    t2.extend(vec![6]);
    assert!(t1 == t2);
    // extending by nothing changes nothing
    let mut t3 = Tree::from_iter(vec![5, 4, 6]);
    t3.extend(vec![]);
    assert!(t3 == t1);
}
